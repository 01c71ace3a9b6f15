//! The state of a search between two steps, and the steps that keep it.
//!
//! Every recorded cost was made over a link from a finalized location, and a
//! finalized location is never recorded anew. This is what makes the
//! predecessor links lead back to the start without a cycle, and what makes
//! the search end.

use vstd::prelude::*;
use crate::frontier::{comes_first, Entry};
use crate::geometry::{Point3, UNREACHED};
use crate::handle::LocationId;
use crate::network::SpaceNetwork;
use crate::walks::never_shortens;

verus! {

/// Sum of a table of cost keys.
pub(crate) open spec fn weight(s: Seq<u64>) -> nat
    decreases s.len(),
{
    if s.len() == 0 {
        0
    } else {
        weight(s.drop_last()) + s.last() as nat
    }
}

/// Lowering one entry of a table lowers its weight.
pub(crate) proof fn lemma_weight_drops(s: Seq<u64>, i: int, v: u64)
    requires
        0 <= i < s.len(),
        v < s[i],
    ensures
        weight(s.update(i, v)) < weight(s),
    decreases s.len(),
{
    let t = s.update(i, v);
    if i == s.len() - 1 {
        assert(t.drop_last() =~= s.drop_last());
    } else {
        assert(t.drop_last() =~= s.drop_last().update(i, v));
        lemma_weight_drops(s.drop_last(), i, v);
    }
}

/// What ties a reached location `v` to the location it was reached from: a
/// finalized location linked to it, over which its recorded cost was made.
pub(crate) open spec fn tied<F: Fn(u64, Point3, Point3) -> u64>(
    net: &SpaceNetwork,
    extend: F,
    dist: Seq<u64>,
    prev: Seq<Option<LocationId>>,
    rank: Seq<int>,
    v: int,
) -> bool {
    match prev[v] {
        None => false,
        Some(u) => {
            &&& net.contains(u)
            &&& rank[u.index() as int] >= 0
            &&& rank[v] >= 0 ==> rank[u.index() as int] < rank[v]
            &&& net.linked(u, LocationId(v as usize))
            &&& extend.ensures(
                (dist[u.index() as int], net.positions()[u.index() as int], net.positions()[v]),
                dist[v],
            )
        },
    }
}

/// A frontier entry is sound: it names a location, at a finite cost that is
/// neither below the floor nor below the cost now recorded there.
pub(crate) open spec fn entry_ok(dist: Seq<u64>, floor: u64, e: Entry) -> bool {
    &&& e.position.index() < dist.len()
    &&& dist[e.position.index() as int] <= e.cost
    &&& floor <= e.cost
    &&& e.cost < UNREACHED
}

/// The state of a search between two expansions. `rank` gives each
/// finalized location the turn at which it was finalized, and -1 to the
/// others; `floor` is the cost of the entry taken out last.
pub(crate) open spec fn search_inv<F: Fn(u64, Point3, Point3) -> u64>(
    net: &SpaceNetwork,
    extend: F,
    start: LocationId,
    dist: Seq<u64>,
    prev: Seq<Option<LocationId>>,
    rank: Seq<int>,
    clock: int,
    floor: u64,
    frontier: Seq<Entry>,
) -> bool {
    let n = net.positions().len();
    &&& dist.len() == n
    &&& prev.len() == n
    &&& rank.len() == n
    &&& net.contains(start)
    &&& dist[start.index() as int] == 0
    &&& prev[start.index() as int] is None
    &&& floor < UNREACHED
    &&& clock >= 0
    &&& forall|v: int| 0 <= v < n ==> #[trigger] dist[v] <= UNREACHED
    &&& forall|v: int| 0 <= v < n ==> #[trigger] rank[v] < clock
    &&& forall|v: int| 0 <= v < n && #[trigger] rank[v] >= 0 ==> dist[v] <= floor
    &&& forall|v: int|
        0 <= v < n && v != start.index() && #[trigger] dist[v] < UNREACHED ==> tied(
            net,
            extend,
            dist,
            prev,
            rank,
            v,
        )
    &&& forall|k: int| 0 <= k < frontier.len() ==> entry_ok(dist, floor, #[trigger] frontier[k])
}

/// One leg of a recorded path: `a` is linked to `b`, and the cost recorded
/// at `b` was made over the cost recorded at `a`.
pub(crate) open spec fn leg_ok<F: Fn(u64, Point3, Point3) -> u64>(
    net: &SpaceNetwork,
    extend: F,
    dist: Seq<u64>,
    a: LocationId,
    b: LocationId,
) -> bool {
    &&& net.linked(a, b)
    &&& extend.ensures(
        (dist[a.index() as int], net.positions()[a.index() as int], net.positions()[b.index() as int]),
        dist[b.index() as int],
    )
}

/// The ranks after `u` is finalized at turn `clock`, unless it already was.
pub(crate) open spec fn finalize(rank: Seq<int>, u: int, clock: int) -> Seq<int> {
    if rank[u] < 0 {
        rank.update(u, clock)
    } else {
        rank
    }
}

/// How late a location was finalized; the present turn for one that was not.
pub(crate) open spec fn height(rank: Seq<int>, clock: int, v: int) -> int {
    if rank[v] >= 0 {
        rank[v]
    } else {
        clock
    }
}

/// Taking out the entry that comes first raises the floor to its cost and
/// keeps the state of the search.
pub(crate) proof fn lemma_taken_out<F: Fn(u64, Point3, Point3) -> u64>(
    net: &SpaceNetwork,
    extend: F,
    start: LocationId,
    dist: Seq<u64>,
    prev: Seq<Option<LocationId>>,
    rank: Seq<int>,
    clock: int,
    floor: u64,
    waiting: Seq<Entry>,
    i: int,
)
    requires
        search_inv(net, extend, start, dist, prev, rank, clock, floor, waiting),
        0 <= i < waiting.len(),
        forall|j: int| 0 <= j < waiting.len() ==> comes_first(waiting[i], #[trigger] waiting[j]),
    ensures
        search_inv(net, extend, start, dist, prev, rank, clock, waiting[i].cost, waiting.remove(i)),
        entry_ok(dist, floor, waiting[i]),
{
    let rest = waiting.remove(i);
    assert(entry_ok(dist, floor, waiting[i]));
    assert forall|k: int| 0 <= k < rest.len() implies entry_ok(
        dist,
        waiting[i].cost,
        #[trigger] rest[k],
    ) by {
        let j = if k < i {
            k
        } else {
            k + 1
        };
        assert(rest[k] == waiting[j]);
        assert(entry_ok(dist, floor, waiting[j]));
        assert(comes_first(waiting[i], waiting[j]));
    }
}

/// Finalizing a location whose cost is the floor keeps the state of the
/// search.
pub(crate) proof fn lemma_ranked<F: Fn(u64, Point3, Point3) -> u64>(
    net: &SpaceNetwork,
    extend: F,
    start: LocationId,
    dist: Seq<u64>,
    prev: Seq<Option<LocationId>>,
    rank: Seq<int>,
    clock: int,
    floor: u64,
    frontier: Seq<Entry>,
    u: int,
)
    requires
        search_inv(net, extend, start, dist, prev, rank, clock, floor, frontier),
        0 <= u < dist.len(),
        dist[u] == floor,
    ensures
        search_inv(net, extend, start, dist, prev, finalize(rank, u, clock), clock + 1, floor, frontier),
        finalize(rank, u, clock)[u] >= 0,
{
    let n = net.positions().len();
    let ranked = finalize(rank, u, clock);
    assert forall|v: int|
        0 <= v < n && v != start.index() && #[trigger] dist[v] < UNREACHED implies tied(
        net,
        extend,
        dist,
        prev,
        ranked,
        v,
    ) by {
        assert(tied(net, extend, dist, prev, rank, v));
    }
}

/// A cost lower than the one recorded at the far end of a link out of the
/// location being expanded: the far end is not finalized, and recording the
/// new cost, the link back and a frontier entry keeps the state of the
/// search and lowers the weight of the table.
pub(crate) proof fn lemma_recorded<F: Fn(u64, Point3, Point3) -> u64>(
    net: &SpaceNetwork,
    extend: F,
    start: LocationId,
    dist: Seq<u64>,
    prev: Seq<Option<LocationId>>,
    rank: Seq<int>,
    clock: int,
    floor: u64,
    frontier: Seq<Entry>,
    from: LocationId,
    to: LocationId,
    made: u64,
)
    requires
        net.wf(),
        never_shortens(extend),
        search_inv(net, extend, start, dist, prev, rank, clock, floor, frontier),
        net.linked(from, to),
        rank[from.index() as int] >= 0,
        dist[from.index() as int] == floor,
        extend.ensures((floor, net.positions()[from.index() as int], net.positions()[to.index() as int]), made),
        made < dist[to.index() as int],
    ensures
        rank[to.index() as int] < 0,
        weight(dist.update(to.index() as int, made)) < weight(dist),
        search_inv(
            net,
            extend,
            start,
            dist.update(to.index() as int, made),
            prev.update(to.index() as int, Some(from)),
            rank,
            clock,
            floor,
            frontier.push(Entry { cost: made, position: to }),
        ),
{
    let n = net.positions().len();
    let v = to.index() as int;
    let lower = dist.update(v, made);
    let linked_back = prev.update(v, Some(from));
    let grown = frontier.push(Entry { cost: made, position: to });
    assert(floor <= made);
    assert(rank[v] < 0);
    lemma_weight_drops(dist, v, made);
    assert(LocationId(v as usize) == to);
    assert forall|w: int|
        0 <= w < n && w != start.index() && #[trigger] lower[w] < UNREACHED implies tied(
        net,
        extend,
        lower,
        linked_back,
        rank,
        w,
    ) by {
        if w != v {
            assert(dist[w] == lower[w]);
            assert(tied(net, extend, dist, prev, rank, w));
        }
    }
    assert forall|j: int| 0 <= j < grown.len() implies entry_ok(
        lower,
        floor,
        #[trigger] grown[j],
    ) by {
        if j < frontier.len() {
            assert(grown[j] == frontier[j]);
            assert(entry_ok(dist, floor, frontier[j]));
        }
    }
}

} // verus!
