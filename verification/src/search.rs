//! The search itself.

use vstd::prelude::*;
use crate::frontier::{comes_first, Entry, Frontier};
use crate::geometry::{Point3, UNREACHED};
use crate::handle::LocationId;
use crate::minimality::{
    lemma_empty_frontier, lemma_finalized, lemma_first_out_is_optimal, lemma_lowered,
    lemma_passed_over, lemma_tried, opt_inv, waiting_for,
};
use crate::network::SpaceNetwork;
use crate::progress::{
    finalize, height, leg_ok, lemma_ranked, lemma_recorded, lemma_taken_out, search_inv, tied,
    weight,
};
use crate::route::Route;
use crate::walks::{
    accumulates, always_callable, finite, leads, measures, never_shortens, optimal,
    order_preserving, reachable, within_reach,
};

verus! {

/// A table of `n` copies of `value`.
fn filled_costs(n: usize, value: u64) -> (table: Vec<u64>)
    ensures
        table@.len() == n,
        forall|i: int| 0 <= i < n ==> table@[i] == value,
{
    let mut table: Vec<u64> = Vec::new();
    let mut i: usize = 0;
    while i < n
        invariant
            i <= n,
            table@.len() == i,
            forall|j: int| 0 <= j < i ==> table@[j] == value,
        decreases n - i,
    {
        table.push(value);
        i += 1;
    }
    table
}

/// A table of `n` absent predecessor links.
fn no_links(n: usize) -> (table: Vec<Option<LocationId>>)
    ensures
        table@.len() == n,
        forall|i: int| 0 <= i < n ==> table@[i] is None,
{
    let mut table: Vec<Option<LocationId>> = Vec::new();
    let mut i: usize = 0;
    while i < n
        invariant
            i <= n,
            table@.len() == i,
            forall|j: int| 0 <= j < i ==> table@[j] is None,
        decreases n - i,
    {
        table.push(None);
        i += 1;
    }
    table
}

/// The locations of `back` in the opposite order.
fn reversed(back: &Vec<LocationId>) -> (path: Vec<LocationId>)
    ensures
        path@ == back@.reverse(),
{
    let mut path: Vec<LocationId> = Vec::new();
    let mut i: usize = back.len();
    while i > 0
        invariant
            i <= back@.len(),
            path@.len() == back@.len() - i,
            forall|j: int| 0 <= j < path@.len() ==> path@[j] == back@[back@.len() - 1 - j],
        decreases i,
    {
        i -= 1;
        path.push(back[i]);
    }
    assert(path@ =~= back@.reverse());
    path
}

impl SpaceNetwork {
    /// The shortest route from `start` to `goal`, by Dijkstra's algorithm
    /// over the links as they are and the positions as they are now.
    ///
    /// `extend(cost, from, to)` gives the cost key of `cost` lengthened by
    /// the straight leg between the two positions. With an invalid handle,
    /// or with no walk from `start` to `goal`, there is no route. A route
    /// that is returned is a walk from `start` to `goal`, and its total is
    /// the finite cost accumulated along it, leg by leg. Where `extend`
    /// keeps the order of costs, a route is returned exactly when some walk
    /// of finite cost exists, and no walk costs less than the one returned.
    pub fn shortest_route<F: Fn(u64, Point3, Point3) -> u64>(
        &self,
        start: LocationId,
        goal: LocationId,
        extend: F,
    ) -> (r: Option<Route>)
        requires
            self.wf(),
            always_callable(extend),
            never_shortens(extend),
        ensures
            !self.contains(start) || !self.contains(goal) ==> r is None,
            !reachable(self, start, goal) ==> r is None,
            self.contains(start) && start == goal ==> (r matches Some(route)
                && route.locations@ == seq![start] && route.total_distance == 0),
            r matches Some(route) ==> {
                &&& leads(self, start, goal, route.locations@)
                &&& measures(self, extend, route.locations@, route.total_distance)
                &&& route.total_distance < UNREACHED
            },
            order_preserving(extend) && within_reach(self, extend, start, goal) ==> r is Some,
            order_preserving(extend) ==> (r matches Some(route) ==> optimal(
                self,
                extend,
                start,
                goal,
                route.total_distance,
            )),
    {
        if !self.is_valid(start) || !self.is_valid(goal) {
            proof {
                assert forall|path: Seq<LocationId>, costs: Seq<u64>|
                    leads(self, start, goal, path) implies !#[trigger] accumulates(
                    self,
                    extend,
                    path,
                    costs,
                ) by {
                    assert(self.contains(path[0]));
                    assert(self.contains(path[path.len() - 1]));
                }
            }
            return None;
        }
        if start == goal {
            let route = Route::singleton(start);
            proof {
                assert(accumulates(self, extend, route.locations@, seq![0u64]));
                assert(finite(seq![0u64]));
                assert(leads(self, start, goal, route.locations@));
            }
            return Some(route);
        }
        let n = self.location_count();
        let mut dist = filled_costs(n, UNREACHED);
        let mut prev = no_links(n);
        let mut frontier = Frontier::new();
        dist.set(start.index(), 0);
        frontier.push(Entry { cost: 0, position: start });
        let ghost mut rank: Seq<int> = Seq::new(n as nat, |i: int| -1int);
        let ghost mut clock: int = 0;
        let ghost mut floor: u64 = 0;
        proof {
            if order_preserving(extend) {
                assert forall|v: int|
                    0 <= v < n && #[trigger] rank[v] < 0 && dist@[v] < UNREACHED implies waiting_for(
                    frontier@,
                    dist@,
                    v,
                ) by {
                    assert(v == start.index());
                    assert(frontier@[0].position.index() == v);
                }
            }
        }

        loop
            invariant_except_break
                order_preserving(extend) ==> opt_inv(self, extend, start, goal, dist@, rank, frontier@, -1, 0),
            invariant
                self.wf(),
                frontier.wf(),
                always_callable(extend),
                never_shortens(extend),
                n == self.positions().len(),
                self.contains(goal),
                search_inv(self, extend, start, dist@, prev@, rank, clock, floor, frontier@),
            ensures
                order_preserving(extend) ==> optimal(self, extend, start, goal, dist@[goal.index() as int]),
            decreases weight(dist@), frontier@.len(),
        {
            let ghost waiting = frontier@;
            let ghost weight_before = weight(dist@);
            match frontier.pop() {
                None => {
                    proof {
                        if order_preserving(extend) {
                            lemma_empty_frontier(self, extend, start, goal, dist@, rank, waiting);
                        }
                    }
                    break ;
                },
                Some(e) => {
                    let ghost i = choose|i: int|
                        {
                            &&& 0 <= i < waiting.len()
                            &&& #[trigger] waiting[i] == e
                            &&& frontier@ == waiting.remove(i)
                            &&& forall|j: int|
                                0 <= j < waiting.len() ==> comes_first(e, #[trigger] waiting[j])
                            &&& forall|j: int|
                                0 <= j < i ==> !comes_first(#[trigger] waiting[j], e)
                        };
                    proof {
                        lemma_taken_out(self, extend, start, dist@, prev@, rank, clock, floor, waiting, i);
                        floor = e.cost;
                    }
                    let idx = e.position.index();
                    if e.cost <= dist[idx] {
                        proof {
                            if order_preserving(extend) {
                                lemma_first_out_is_optimal(self, extend, start, goal, dist@, rank, waiting, e);
                            }
                        }
                        if e.position == goal {
                            break ;
                        }
                        proof {
                            lemma_ranked(
                                self,
                                extend,
                                start,
                                dist@,
                                prev@,
                                rank,
                                clock,
                                floor,
                                frontier@,
                                idx as int,
                            );
                            if order_preserving(extend) {
                                lemma_finalized(self, extend, start, goal, dist@, rank, clock, waiting, i);
                            }
                            rank = finalize(rank, idx as int, clock);
                            clock = clock + 1;
                        }
                        let out = self.outgoing(e.position);
                        let here = self.position_of(e.position);
                        let mut k: usize = 0;
                        while k < out.len()
                            invariant
                                self.wf(),
                                frontier.wf(),
                                always_callable(extend),
                                never_shortens(extend),
                                n == self.positions().len(),
                                self.contains(e.position),
                                self.contains(goal),
                                idx == e.position.index(),
                                out@ == self.links()[idx as int],
                                here == self.positions()[idx as int],
                                k <= out@.len(),
                                search_inv(self, extend, start, dist@, prev@, rank, clock, floor, frontier@),
                                order_preserving(extend) ==> opt_inv(
                                    self,
                                    extend,
                                    start,
                                    goal,
                                    dist@,
                                    rank,
                                    frontier@,
                                    idx as int,
                                    k as int,
                                ),
                                floor == e.cost,
                                rank[idx as int] >= 0,
                                dist@[idx as int] == e.cost,
                                weight(dist@) < weight_before || (weight(dist@) == weight_before
                                    && frontier@.len() == waiting.len() - 1),
                            decreases out@.len() - k,
                        {
                            let neighbor = out[k];
                            let n_idx = neighbor.index();
                            assert(self.links()[idx as int][k as int] == neighbor);
                            let there = self.position_of(neighbor);
                            let next_cost = extend(e.cost, here, there);
                            if next_cost < dist[n_idx] {
                                proof {
                                    assert(self.linked(e.position, neighbor));
                                    lemma_recorded(
                                        self,
                                        extend,
                                        start,
                                        dist@,
                                        prev@,
                                        rank,
                                        clock,
                                        floor,
                                        frontier@,
                                        e.position,
                                        neighbor,
                                        next_cost,
                                    );
                                    if order_preserving(extend) {
                                        lemma_lowered(
                                            self,
                                            extend,
                                            start,
                                            goal,
                                            dist@,
                                            rank,
                                            frontier@,
                                            idx as int,
                                            k as int,
                                            next_cost,
                                        );
                                    }
                                }
                                dist.set(n_idx, next_cost);
                                prev.set(n_idx, Some(e.position));
                                frontier.push(Entry { cost: next_cost, position: neighbor });
                            } else {
                                proof {
                                    if order_preserving(extend) {
                                        lemma_tried(
                                            self,
                                            extend,
                                            start,
                                            goal,
                                            dist@,
                                            rank,
                                            frontier@,
                                            idx as int,
                                            k as int,
                                            next_cost,
                                        );
                                    }
                                }
                            }
                            k += 1;
                        }
                    } else {
                        proof {
                            if order_preserving(extend) {
                                lemma_passed_over(self, extend, start, goal, dist@, rank, waiting, i);
                            }
                        }
                    }
                },
            }
        }

        let goal_dist = dist[goal.index()];
        if goal_dist >= UNREACHED {
            return None;
        }
        let mut back: Vec<LocationId> = Vec::new();
        back.push(goal);
        let mut current = goal;
        loop
            invariant
                n == self.positions().len(),
                self.contains(goal),
                search_inv(self, extend, start, dist@, prev@, rank, clock, floor, frontier@),
                self.contains(current),
                back@.len() >= 1,
                back@[0] == goal,
                back@.last() == current,
                forall|i: int|
                    0 <= i < back@.len() ==> self.contains(#[trigger] back@[i]) && dist@[back@[i].index() as int]
                        < UNREACHED,
                forall|i: int|
                    0 <= i < back@.len() - 1 ==> leg_ok(
                        self,
                        extend,
                        dist@,
                        back@[i + 1],
                        #[trigger] back@[i],
                    ),
            ensures
                current == start,
            decreases height(rank, clock, current.index() as int),
        {
            let ghost found = back@;
            assert(dist@[found[found.len() - 1].index() as int] < UNREACHED);
            match prev[current.index()] {
                None => {
                    assert(current.index() == start.index()) by {
                        if current.index() != start.index() {
                            assert(tied(self, extend, dist@, prev@, rank, current.index() as int));
                        }
                    }
                    break ;
                },
                Some(p) => {
                    proof {
                        assert(tied(self, extend, dist@, prev@, rank, current.index() as int));
                        assert(LocationId(current.index()) == current);
                        assert(leg_ok(self, extend, dist@, p, current));
                        assert(dist@[p.index() as int] <= floor);
                    }
                    back.push(p);
                    current = p;
                    proof {
                        assert forall|i: int|
                            0 <= i < back@.len() implies self.contains(#[trigger] back@[i])
                            && dist@[back@[i].index() as int] < UNREACHED by {
                            if i < found.len() {
                                assert(back@[i] == found[i]);
                            }
                        }
                        assert forall|i: int| 0 <= i < back@.len() - 1 implies leg_ok(
                            self,
                            extend,
                            dist@,
                            back@[i + 1],
                            #[trigger] back@[i],
                        ) by {
                            if i < found.len() - 1 {
                                assert(leg_ok(self, extend, dist@, found[i + 1], found[i]));
                            }
                        }
                    }
                },
            }
        }
        let locations = reversed(&back);
        proof {
            let path = locations@;
            let len = path.len() as int;
            let costs = Seq::new(path.len(), |i: int| dist@[path[i].index() as int]);
            assert forall|i: int| 0 <= i < len implies self.contains(#[trigger] path[i]) by {
                assert(path[i] == back@[len - 1 - i]);
            }
            assert forall|i: int| 0 <= i < len implies #[trigger] costs[i] < UNREACHED by {
                assert(path[i] == back@[len - 1 - i]);
            }
            assert forall|i: int| 0 <= i < len - 1 implies self.linked(
                #[trigger] path[i],
                path[i + 1],
            ) by {
                assert(leg_ok(self, extend, dist@, back@[len - 2 - i + 1], back@[len - 2 - i]));
            }
            assert forall|i: int| 0 <= i < len - 1 implies extend.ensures(
                (
                    #[trigger] costs[i],
                    self.positions()[path[i].index() as int],
                    self.positions()[path[i + 1].index() as int],
                ),
                costs[i + 1],
            ) by {
                assert(leg_ok(self, extend, dist@, back@[len - 2 - i + 1], back@[len - 2 - i]));
            }
            assert(leads(self, start, goal, path));
            assert(accumulates(self, extend, path, costs));
            assert(finite(costs));
            assert(costs.last() == goal_dist);
        }
        Some(Route::new(locations, goal_dist))
    }
}

} // verus!
