// Edge cases and invariants around the routing itself.

use taho_routes::{Point3, SpaceNetwork};

fn approx_eq(a: f64, b: f64) -> bool {
    (a - b).abs() < 1e-9
}

fn at(x: f64, y: f64, z: f64) -> Point3 {
    Point3::new(x.to_bits(), y.to_bits(), z.to_bits())
}

fn span(p: Point3, q: Point3) -> f64 {
    let dx = f64::from_bits(p.x) - f64::from_bits(q.x);
    let dy = f64::from_bits(p.y) - f64::from_bits(q.y);
    let dz = f64::from_bits(p.z) - f64::from_bits(q.z);
    (dx * dx + dy * dy + dz * dz).sqrt()
}

fn leg(cost: u64, from: Point3, to: Point3) -> u64 {
    (f64::from_bits(cost) + span(from, to)).to_bits()
}

#[test]
fn start_equals_goal_zero_distance() {
    let mut net = SpaceNetwork::new();
    let a = net.add_location(at(42.0, -7.0, 3.14));

    let route = net.shortest_route(a, a, leg).expect("route");
    assert_eq!(route.locations, vec![a]);
    assert!(approx_eq(f64::from_bits(route.total_distance), 0.0));
}

#[test]
fn disconnected_components_have_no_route() {
    let mut net = SpaceNetwork::new();
    let a = net.add_location(at(0.0, 0.0, 0.0));
    let b = net.add_location(at(1.0, 0.0, 0.0));
    let c = net.add_location(at(10.0, 0.0, 0.0));

    net.connect_bidirectional(a, b).unwrap();
    // c is isolated

    assert!(net.shortest_route(a, c, leg).is_none());
}

#[test]
fn moving_location_updates_route_distance() {
    let mut net = SpaceNetwork::new();
    let a = net.add_location(at(0.0, 0.0, 0.0));
    let b = net.add_location(at(1.0, 0.0, 0.0));

    net.connect_bidirectional(a, b).unwrap();

    let original = net.shortest_route(a, b, leg).unwrap();
    assert!(approx_eq(f64::from_bits(original.total_distance), 1.0));

    net.move_location(b, at(3.0, 4.0, 0.0)).unwrap();

    let updated = net.shortest_route(a, b, leg).unwrap();
    assert!(approx_eq(f64::from_bits(updated.total_distance), 5.0));
}
