// Behaviour of the network and of the search on small, hand-checked inputs.

use taho_routes::frontier::{Entry, Frontier};
use taho_routes::{LocationId, Point3, Route, SpaceNetwork, UNREACHED};

fn at(x: f64, y: f64, z: f64) -> Point3 {
    Point3::new(x.to_bits(), y.to_bits(), z.to_bits())
}

fn span(p: Point3, q: Point3) -> f64 {
    let dx = f64::from_bits(p.x) - f64::from_bits(q.x);
    let dy = f64::from_bits(p.y) - f64::from_bits(q.y);
    let dz = f64::from_bits(p.z) - f64::from_bits(q.z);
    (dx * dx + dy * dy + dz * dz).sqrt()
}

fn leg(cost: u64, from: Point3, to: Point3) -> u64 {
    (f64::from_bits(cost) + span(from, to)).to_bits()
}

fn hop(cost: u64, _from: Point3, _to: Point3) -> u64 {
    cost.saturating_add(1)
}

// The square of the difference of the first coordinates, read as integers.
fn squared(cost: u64, from: Point3, to: Point3) -> u64 {
    let d = from.x.abs_diff(to.x);
    cost.saturating_add(d * d)
}

fn total(route: &Route) -> f64 {
    f64::from_bits(route.total_distance)
}

// A handle that names nothing in a network of fewer than five locations.
fn stranger() -> LocationId {
    let mut other = SpaceNetwork::new();
    let mut last = other.add_location(at(0.0, 0.0, 0.0));
    for _ in 0..4 {
        last = other.add_location(at(0.0, 0.0, 0.0));
    }
    last
}

#[test]
fn handles_count_up_from_zero() {
    let mut net = SpaceNetwork::new();
    assert_eq!(net.location_count(), 0);
    let a = net.add_location(at(1.0, 2.0, 3.0));
    let b = net.add_location(at(4.0, 5.0, 6.0));
    assert_eq!(a.index(), 0);
    assert_eq!(b.index(), 1);
    assert_eq!(net.location_count(), 2);
    assert!(net.is_valid(a));
    assert!(!net.is_valid(stranger()));
}

#[test]
fn location_returns_what_was_stored() {
    let mut net = SpaceNetwork::new();
    let a = net.add_location(at(1.5, -2.0, 0.25));
    let loc = net.location(a).expect("stored");
    assert_eq!(loc.id, a);
    assert_eq!(f64::from_bits(loc.position.x), 1.5);
    assert_eq!(f64::from_bits(loc.position.y), -2.0);
    assert_eq!(f64::from_bits(loc.position.z), 0.25);
    assert!(net.location(stranger()).is_none());
    let p = net.position_of(a);
    assert_eq!((p.x, p.y, p.z), (1.5f64.to_bits(), (-2.0f64).to_bits(), 0.25f64.to_bits()));
}

#[test]
fn invalid_handles_are_refused_not_fatal() {
    let mut net = SpaceNetwork::new();
    let a = net.add_location(at(0.0, 0.0, 0.0));
    let ghost = stranger();
    assert_eq!(net.move_location(ghost, at(1.0, 1.0, 1.0)), Err("invalid LocationId"));
    assert_eq!(net.connect_directed(a, ghost), Err("invalid LocationId"));
    assert_eq!(net.connect_directed(ghost, a), Err("invalid LocationId"));
    assert_eq!(net.connect_bidirectional(a, ghost), Err("invalid LocationId"));
    assert_eq!(net.connect_bidirectional(ghost, a), Err("invalid LocationId"));
    assert!(net.neighbors(ghost).is_none());
    assert!(net.shortest_route(a, ghost, leg).is_none());
    assert!(net.shortest_route(ghost, a, leg).is_none());
    assert!(net.shortest_route(ghost, ghost, leg).is_none());
    // Nothing was stored by the refused calls.
    assert_eq!(net.neighbors(a), Some(vec![]));
    assert_eq!(net.location_count(), 1);
}

#[test]
fn neighbors_keep_insertion_order_and_duplicates() {
    let mut net = SpaceNetwork::new();
    let a = net.add_location(at(0.0, 0.0, 0.0));
    let b = net.add_location(at(1.0, 0.0, 0.0));
    let c = net.add_location(at(2.0, 0.0, 0.0));
    net.connect_directed(a, c).unwrap();
    net.connect_directed(a, b).unwrap();
    net.connect_directed(a, c).unwrap();
    assert_eq!(net.neighbors(a), Some(vec![c, b, c]));
    assert_eq!(net.neighbors(b), Some(vec![]));
    // A fresh call yields the full list again.
    assert_eq!(net.neighbors(a), Some(vec![c, b, c]));
    assert_eq!(net.outgoing(a), &vec![c, b, c]);
}

#[test]
fn self_links_are_not_stored() {
    let mut net = SpaceNetwork::new();
    let a = net.add_location(at(0.0, 0.0, 0.0));
    assert_eq!(net.connect_directed(a, a), Ok(()));
    assert_eq!(net.connect_bidirectional(a, a), Ok(()));
    assert_eq!(net.neighbors(a), Some(vec![]));
}

#[test]
fn bidirectional_stores_both_directions() {
    let mut net = SpaceNetwork::new();
    let a = net.add_location(at(0.0, 0.0, 0.0));
    let b = net.add_location(at(1.0, 0.0, 0.0));
    net.connect_bidirectional(a, b).unwrap();
    assert_eq!(net.neighbors(a), Some(vec![b]));
    assert_eq!(net.neighbors(b), Some(vec![a]));
}

#[test]
fn relocation_leaves_links_alone() {
    let mut net = SpaceNetwork::new();
    let a = net.add_location(at(0.0, 0.0, 0.0));
    let b = net.add_location(at(1.0, 0.0, 0.0));
    net.connect_directed(a, b).unwrap();
    net.move_location(a, at(9.0, 9.0, 9.0)).unwrap();
    assert_eq!(net.neighbors(a), Some(vec![b]));
    assert_eq!(f64::from_bits(net.location(a).unwrap().position.x), 9.0);
    assert_eq!(net.location(a).unwrap().id, a);
    assert_eq!(f64::from_bits(net.location(b).unwrap().position.x), 1.0);
}

#[test]
fn route_accessors() {
    let a = stranger();
    let single = Route::singleton(a);
    assert_eq!(single.locations, vec![a]);
    assert_eq!(single.total_distance, 0);
    assert_eq!(single.len(), 1);
    assert!(!single.is_empty());
    let made = Route::new(vec![a, a], 7);
    assert_eq!(made.len(), 2);
    assert_eq!(made.total_distance, 7);
    let none = Route::new(vec![], 0);
    assert!(none.is_empty());
    assert_eq!(none.len(), 0);
}

#[test]
fn unreached_is_the_key_of_infinity() {
    assert_eq!(UNREACHED, f64::INFINITY.to_bits());
    assert!(f64::MAX.to_bits() < UNREACHED);
    assert_eq!(0.0f64.to_bits(), 0);
}

#[test]
fn frontier_gives_lowest_cost_then_lowest_handle() {
    let mut net = SpaceNetwork::new();
    let h0 = net.add_location(at(0.0, 0.0, 0.0));
    let h1 = net.add_location(at(0.0, 0.0, 0.0));
    let h2 = net.add_location(at(0.0, 0.0, 0.0));
    let mut f = Frontier::new();
    assert!(f.pop().is_none());
    f.push(Entry { cost: 5, position: h0 });
    f.push(Entry { cost: 3, position: h2 });
    f.push(Entry { cost: 3, position: h1 });
    f.push(Entry { cost: 9, position: h0 });
    let order: Vec<(u64, usize)> = std::iter::from_fn(|| f.pop())
        .map(|e| (e.cost, e.position.index()))
        .collect();
    assert_eq!(order, vec![(3, 1), (3, 2), (5, 0), (9, 0)]);
}

#[test]
fn same_start_and_goal_is_the_singleton_at_zero() {
    let mut net = SpaceNetwork::new();
    let a = net.add_location(at(0.0, 0.0, 0.0));
    let b = net.add_location(at(5.0, 5.0, 5.0));
    net.connect_bidirectional(a, b).unwrap();
    for x in [a, b] {
        let route = net.shortest_route(x, x, leg).expect("always there");
        assert_eq!(route.locations, vec![x]);
        assert_eq!(route.total_distance, 0);
        assert_eq!(total(&route), 0.0);
    }
}

#[test]
fn total_is_the_sum_along_the_route() {
    let mut net = SpaceNetwork::new();
    let a = net.add_location(at(0.0, 0.0, 0.0));
    let b = net.add_location(at(1.0, 2.0, 2.0));
    let c = net.add_location(at(4.0, 6.0, 2.0));
    let d = net.add_location(at(4.0, 6.0, 14.0));
    net.connect_bidirectional(a, b).unwrap();
    net.connect_bidirectional(b, c).unwrap();
    net.connect_bidirectional(c, d).unwrap();
    let route = net.shortest_route(a, d, leg).expect("chained");
    assert_eq!(route.locations, vec![a, b, c, d]);
    let mut sum = 0.0;
    for pair in route.locations.windows(2) {
        sum += span(net.position_of(pair[0]), net.position_of(pair[1]));
    }
    assert_eq!(total(&route), sum);
    assert_eq!(total(&route), 3.0 + 5.0 + 12.0);
}

#[test]
fn two_locations_three_four_five() {
    let mut net = SpaceNetwork::new();
    let a = net.add_location(at(0.0, 0.0, 0.0));
    let b = net.add_location(at(3.0, 4.0, 0.0));
    net.connect_bidirectional(a, b).unwrap();
    let route = net.shortest_route(a, b, leg).unwrap();
    assert_eq!(route.locations, vec![a, b]);
    assert_eq!(total(&route), 5.0);
}

#[test]
fn three_collinear_locations_chain() {
    let mut net = SpaceNetwork::new();
    let first = net.add_location(at(0.0, 0.0, 0.0));
    let mid = net.add_location(at(1.0, 0.0, 0.0));
    let last = net.add_location(at(2.0, 0.0, 0.0));
    net.connect_bidirectional(first, mid).unwrap();
    net.connect_bidirectional(mid, last).unwrap();
    let route = net.shortest_route(first, last, leg).unwrap();
    assert_eq!(route.locations, vec![first, mid, last]);
    assert_eq!(total(&route), 2.0);
}

#[test]
fn equal_cost_detour_keeps_the_path_found_first() {
    let mut net = SpaceNetwork::new();
    let a = net.add_location(at(0.0, 0.0, 0.0));
    let b = net.add_location(at(2.0, 0.0, 0.0));
    let c = net.add_location(at(1.0, 0.0, 0.0));
    net.connect_bidirectional(a, b).unwrap();
    net.connect_bidirectional(a, c).unwrap();
    net.connect_bidirectional(c, b).unwrap();
    let route = net.shortest_route(a, b, leg).unwrap();
    assert_eq!(total(&route), 2.0);
    // Only a strictly lower cost replaces a recorded path, so the direct
    // link, tried first, stays.
    assert_eq!(route.locations, vec![a, b]);
    // The same query gives the same answer.
    let again = net.shortest_route(a, b, leg).unwrap();
    assert_eq!(again.locations, route.locations);
    assert_eq!(again.total_distance, route.total_distance);
}

#[test]
fn longer_detour_loses_to_the_direct_link() {
    let mut net = SpaceNetwork::new();
    let a = net.add_location(at(0.0, 0.0, 0.0));
    let b = net.add_location(at(0.0, 8.0, 0.0));
    let c = net.add_location(at(3.0, 4.0, 0.0));
    net.connect_directed(a, c).unwrap();
    net.connect_directed(c, b).unwrap();
    net.connect_directed(a, b).unwrap();
    // Direct: 8. Through c: 5 + 5 = 10.
    let route = net.shortest_route(a, b, leg).unwrap();
    assert_eq!(route.locations, vec![a, b]);
    assert_eq!(total(&route), 8.0);
    // Counting links instead of measuring them, the direct link wins too.
    let by_hops = net.shortest_route(a, b, hop).unwrap();
    assert_eq!(by_hops.locations, vec![a, b]);
    assert_eq!(by_hops.total_distance, 1);
}

#[test]
fn strictly_cheaper_detour_wins() {
    // With the square of the distance as the cost of a leg, two short legs
    // are cheaper than one long one: 1 + 1 against 4.
    let mut net = SpaceNetwork::new();
    let a = net.add_location(Point3::new(0, 0, 0));
    let b = net.add_location(Point3::new(2, 0, 0));
    let c = net.add_location(Point3::new(1, 0, 0));
    net.connect_bidirectional(a, b).unwrap();
    net.connect_bidirectional(a, c).unwrap();
    net.connect_bidirectional(c, b).unwrap();
    let route = net.shortest_route(a, b, squared).unwrap();
    assert_eq!(route.locations, vec![a, c, b]);
    assert_eq!(route.total_distance, 2);
    // Pull c away until the detour costs 9 + 1: the direct link is back.
    net.move_location(c, Point3::new(3, 0, 0)).unwrap();
    let route = net.shortest_route(a, b, squared).unwrap();
    assert_eq!(route.locations, vec![a, b]);
    assert_eq!(route.total_distance, 4);
}

#[test]
fn outdated_frontier_entries_are_passed_over() {
    // b is first recorded through u, the near neighbour of a, at
    // 1 + sqrt(101), and then through v at 9 + 1. The goal d lies beyond b,
    // so the outdated entry for b comes out of the frontier before d does.
    let mut net = SpaceNetwork::new();
    let a = net.add_location(at(0.0, 0.0, 0.0));
    let b = net.add_location(at(10.0, 0.0, 0.0));
    let u = net.add_location(at(0.0, 1.0, 0.0));
    let v = net.add_location(at(9.0, 0.0, 0.0));
    let d = net.add_location(at(20.0, 0.0, 0.0));
    net.connect_directed(a, u).unwrap();
    net.connect_directed(a, v).unwrap();
    net.connect_directed(u, b).unwrap();
    net.connect_directed(v, b).unwrap();
    net.connect_directed(b, d).unwrap();
    let route = net.shortest_route(a, d, leg).unwrap();
    assert_eq!(route.locations, vec![a, v, b, d]);
    assert_eq!(total(&route), 20.0);
}

#[test]
fn isolated_location_is_out_of_reach() {
    let mut net = SpaceNetwork::new();
    let a = net.add_location(at(0.0, 0.0, 0.0));
    let b = net.add_location(at(1.0, 0.0, 0.0));
    let c = net.add_location(at(100.0, 0.0, 0.0));
    net.connect_bidirectional(a, b).unwrap();
    assert!(net.shortest_route(a, c, leg).is_none());
    assert!(net.shortest_route(c, a, leg).is_none());
    assert!(net.shortest_route(a, c, hop).is_none());
}

#[test]
fn one_way_link_has_no_way_back() {
    let mut net = SpaceNetwork::new();
    let a = net.add_location(at(0.0, 0.0, 0.0));
    let b = net.add_location(at(1.0, 0.0, 0.0));
    net.connect_directed(a, b).unwrap();
    assert!(net.shortest_route(a, b, leg).is_some());
    assert!(net.shortest_route(b, a, leg).is_none());
    net.connect_directed(b, a).unwrap();
    let back = net.shortest_route(b, a, leg).unwrap();
    assert_eq!(back.locations, vec![b, a]);
    assert_eq!(total(&back), 1.0);
}

#[test]
fn directed_cycle_is_travelled_forwards() {
    let mut net = SpaceNetwork::new();
    let a = net.add_location(at(0.0, 0.0, 0.0));
    let b = net.add_location(at(1.0, 0.0, 0.0));
    let c = net.add_location(at(1.0, 1.0, 0.0));
    let d = net.add_location(at(0.0, 1.0, 0.0));
    net.connect_directed(a, b).unwrap();
    net.connect_directed(b, c).unwrap();
    net.connect_directed(c, d).unwrap();
    net.connect_directed(d, a).unwrap();
    let forth = net.shortest_route(a, c, leg).unwrap();
    assert_eq!(forth.locations, vec![a, b, c]);
    assert_eq!(total(&forth), 2.0);
    let round = net.shortest_route(c, a, leg).unwrap();
    assert_eq!(round.locations, vec![c, d, a]);
    assert_eq!(total(&round), 2.0);
    // The one link a -> b cannot be taken backwards: b reaches a only by
    // the long way round.
    let long = net.shortest_route(b, a, leg).unwrap();
    assert_eq!(long.locations, vec![b, c, d, a]);
    assert_eq!(total(&long), 3.0);
}

#[test]
fn relocation_shows_in_later_searches_only() {
    let mut net = SpaceNetwork::new();
    let a = net.add_location(at(0.0, 0.0, 0.0));
    let b = net.add_location(at(1.0, 0.0, 0.0));
    net.connect_bidirectional(a, b).unwrap();
    let earlier = net.shortest_route(a, b, leg).unwrap();
    assert_eq!(total(&earlier), 1.0);
    net.move_location(b, at(3.0, 4.0, 0.0)).unwrap();
    let later = net.shortest_route(a, b, leg).unwrap();
    assert_eq!(total(&later), 5.0);
    assert_eq!(later.locations, vec![a, b]);
    // The route handed out before the move is a value of its own.
    assert_eq!(total(&earlier), 1.0);
    assert_eq!(earlier.locations, vec![a, b]);
    // Links added later do not reach it either.
    let c = net.add_location(at(0.0, 0.0, 1.0));
    net.connect_bidirectional(a, c).unwrap();
    assert_eq!(earlier.len(), 2);
}

#[test]
fn overflowing_distance_counts_as_no_route() {
    let mut net = SpaceNetwork::new();
    let a = net.add_location(at(-1.0e200, 0.0, 0.0));
    let b = net.add_location(at(1.0e200, 0.0, 0.0));
    net.connect_bidirectional(a, b).unwrap();
    // The squared difference is past the largest finite number.
    assert!(net.shortest_route(a, b, leg).is_none());
}

#[test]
fn agrees_with_exhaustive_relaxation_on_a_scattered_network() {
    // Forty locations and a few hundred one-way links from a fixed
    // congruential sequence.
    let mut seed: u64 = 0x2545_F491_4F6C_DD1D;
    let mut next = move || {
        seed = seed.wrapping_mul(6364136223846793005).wrapping_add(1442695040888963407);
        (seed >> 33) as u32
    };
    let count = 40usize;
    let mut net = SpaceNetwork::new();
    let mut ids = Vec::new();
    for _ in 0..count {
        let x = (next() % 1000) as f64 / 10.0;
        let y = (next() % 1000) as f64 / 10.0;
        let z = (next() % 1000) as f64 / 10.0;
        ids.push(net.add_location(at(x, y, z)));
    }
    let mut links: Vec<(usize, usize)> = Vec::new();
    for _ in 0..130 {
        let from = next() as usize % count;
        let to = next() as usize % count;
        net.connect_directed(ids[from], ids[to]).unwrap();
        if from != to {
            links.push((from, to));
        }
    }
    let stored: usize = ids.iter().map(|id| net.neighbors(*id).unwrap().len()).sum();
    assert_eq!(stored, links.len());

    for start in 0..count {
        // Relax every link until nothing changes.
        let mut best = vec![f64::INFINITY; count];
        best[start] = 0.0;
        loop {
            let mut changed = false;
            for &(from, to) in &links {
                let through = best[from] + span(net.position_of(ids[from]), net.position_of(ids[to]));
                if through < best[to] {
                    best[to] = through;
                    changed = true;
                }
            }
            if !changed {
                break;
            }
        }
        for goal in 0..count {
            let found = net.shortest_route(ids[start], ids[goal], leg);
            match found {
                None => assert!(best[goal].is_infinite(), "{} to {}", start, goal),
                Some(route) => {
                    assert_eq!(route.locations[0], ids[start]);
                    assert_eq!(route.locations[route.len() - 1], ids[goal]);
                    let mut sum = 0.0;
                    for pair in route.locations.windows(2) {
                        assert!(net.neighbors(pair[0]).unwrap().contains(&pair[1]));
                        sum += span(net.position_of(pair[0]), net.position_of(pair[1]));
                    }
                    assert_eq!(total(&route), sum);
                    assert!((total(&route) - best[goal]).abs() < 1e-9, "{} to {}", start, goal);
                    let again = net.shortest_route(ids[start], ids[goal], leg).unwrap();
                    assert_eq!(again.locations, route.locations);
                    assert_eq!(again.total_distance, route.total_distance);
                }
            }
        }
    }
}

#[test]
fn frontier_empties_in_order_whatever_the_order_of_entry() {
    let mut net = SpaceNetwork::new();
    let handles: Vec<LocationId> = (0..16).map(|_| net.add_location(at(0.0, 0.0, 0.0))).collect();
    let mut seed: u64 = 12345;
    let mut f = Frontier::new();
    let mut entered: Vec<(u64, usize)> = Vec::new();
    let mut left: Vec<(u64, usize)> = Vec::new();
    for round in 0..300 {
        seed = seed.wrapping_mul(6364136223846793005).wrapping_add(1442695040888963407);
        let cost = (seed >> 40) % 50;
        let which = ((seed >> 20) % 16) as usize;
        f.push(Entry { cost, position: handles[which] });
        entered.push((cost, which));
        // Now and then take one out in between.
        if round % 7 == 3 {
            let e = f.pop().expect("not empty");
            left.push((e.cost, e.position.index()));
            let at_min = entered.iter().min().copied().unwrap();
            assert_eq!((e.cost, e.position.index()), at_min);
            let gone = entered.iter().position(|x| *x == at_min).unwrap();
            entered.remove(gone);
        }
    }
    entered.sort();
    let mut rest: Vec<(u64, usize)> = Vec::new();
    while let Some(e) = f.pop() {
        rest.push((e.cost, e.position.index()));
    }
    assert_eq!(rest, entered);
    assert!(f.pop().is_none());
    assert_eq!(left.len(), 43);
}
