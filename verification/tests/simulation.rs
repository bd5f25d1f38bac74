use differential_growth::{DifferentialGrowth, Node, Vec2};

fn v(x: i64, y: i64) -> Vec2 {
    Vec2 { x, y }
}

fn square_radius_10() -> Vec<Vec2> {
    // Four points on a circle of radius 10 units (10000 raw ticks) centered
    // at the origin.
    vec![v(10_000, 0), v(0, 10_000), v(-10_000, 0), v(0, -10_000)]
}

#[test]
fn scenario_square_one_tick() {
    // max_force 1.5, max_speed 1.0, desired_separation 14.0,
    // separation/cohesion ratio 1.1, max_edge_length 5.0 (all in
    // thousandths). Every edge of the inscribed square is about 14.14 units,
    // so all four edges subdivide on the first tick.
    let mut dg = DifferentialGrowth::new(square_radius_10(), 1500, 1000, 14_000, 1100, 5000);
    dg.tick();
    let points = dg.get_points();
    assert!(points.len() >= 4);
    assert_eq!(points.len(), 8);
}

#[test]
fn determinism_two_runs() {
    let mut a = DifferentialGrowth::new(square_radius_10(), 1500, 1000, 14_000, 1100, 5000);
    let mut b = DifferentialGrowth::new(square_radius_10(), 1500, 1000, 14_000, 1100, 5000);
    for _ in 0..3 {
        a.tick();
        b.tick();
    }
    let pa = a.get_points();
    let pb = b.get_points();
    assert_eq!(pa.len(), pb.len());
    for i in 0..pa.len() {
        assert_eq!(pa[i].x, pb[i].x);
        assert_eq!(pa[i].y, pb[i].y);
    }
}

#[test]
fn node_count_never_shrinks() {
    let mut dg = DifferentialGrowth::new(square_radius_10(), 1500, 1000, 14_000, 1100, 5000);
    let mut len = dg.get_points().len();
    for _ in 0..5 {
        dg.tick();
        let now = dg.get_points().len();
        assert!(now >= len);
        len = now;
    }
}

#[test]
fn growth_at_exact_threshold_inserts_nothing() {
    // Triangle with one edge of squared length exactly max_edge_length^2:
    // the boundary is exclusive, so nothing subdivides.
    let pts = vec![v(0, 0), v(5000, 0), v(2500, 1)];
    let mut dg = DifferentialGrowth::new(pts, 1500, 1000, 14_000, 1100, 5000);
    dg.growth();
    let points = dg.get_points();
    assert_eq!(points.len(), 3);
}

#[test]
fn growth_above_threshold_inserts_midpoint() {
    // One edge barely above max_edge_length: exactly one node appears, at
    // the midpoint, between the edge's endpoints; every other node keeps
    // its relative order.
    let pts = vec![v(0, 0), v(5001, 0), v(2500, 1)];
    let mut dg = DifferentialGrowth::new(pts, 1500, 1000, 14_000, 1100, 5000);
    dg.growth();
    let points = dg.get_points();
    assert_eq!(points.len(), 4);
    assert_eq!((points[0].x, points[0].y), (0, 0));
    assert_eq!((points[1].x, points[1].y), (2500, 0));
    assert_eq!((points[2].x, points[2].y), (5001, 0));
    assert_eq!((points[3].x, points[3].y), (2500, 1));
}

#[test]
fn update_caps_velocity() {
    // A 3-4-5 impulse of magnitude 5.0 against max_speed 1.0: the velocity
    // is rescaled to magnitude 1.0 exactly.
    let mut node = Node::new(v(0, 0), 1000, 1500);
    node.apply_force(&v(3000, 4000));
    node.update();
    assert_eq!((node.velocity.x, node.velocity.y), (600, 800));
    assert_eq!((node.position.x, node.position.y), (600, 800));
    assert_eq!((node.acceleration.x, node.acceleration.y), (0, 0));
}

#[test]
fn update_below_cap_keeps_velocity() {
    let mut node = Node::new(v(0, 0), 1000, 1500);
    node.apply_force(&v(300, 400));
    node.update();
    assert_eq!((node.velocity.x, node.velocity.y), (300, 400));
    assert_eq!((node.position.x, node.position.y), (300, 400));
}

#[test]
fn seek_rescales_to_max_speed() {
    let node = Node::new(v(0, 0), 1000, 1500);
    let force = node.seek(&v(3000, 4000));
    assert_eq!((force.x, force.y), (600, 800));
}

#[test]
fn seek_zero_target_gives_zero_force() {
    let node = Node::new(v(0, 0), 1000, 1500);
    let force = node.seek(&v(0, 0));
    assert_eq!((force.x, force.y), (0, 0));
}

#[test]
fn separation_pushes_close_nodes_apart() {
    // Two nodes one unit apart, well within desired_separation: the
    // averaged inverse-distance repulsion rescaled to max_speed points
    // straight away from the other node.
    let pts = vec![v(0, 0), v(1000, 0)];
    let dg = DifferentialGrowth::new(pts, 1500, 1000, 14_000, 1000, 100_000);
    let forces = dg.get_separation_forces();
    assert_eq!(forces.len(), 2);
    assert_eq!((forces[0].x, forces[0].y), (-1000, 0));
    assert_eq!((forces[1].x, forces[1].y), (1000, 0));
}

#[test]
fn separation_counts_neighbor_at_exact_radius() {
    // Two resting nodes exactly desired_separation apart: the boundary is
    // inclusive, so each still repels the other, and the rescale to
    // max_speed gives a full-strength force.
    let pts = vec![v(0, 0), v(5000, 0)];
    let dg = DifferentialGrowth::new(pts, 1500, 1000, 5000, 1100, 100_000);
    let forces = dg.get_separation_forces();
    assert_eq!((forces[0].x, forces[0].y), (-1000, 0));
    assert_eq!((forces[1].x, forces[1].y), (1000, 0));
}

#[test]
fn separation_with_no_neighbors_is_zero_for_resting_nodes() {
    // The nodes are 500 units apart, far beyond desired_separation of 14,
    // and at rest, so the separation force is the capped negated velocity:
    // zero.
    let pts = vec![v(0, 0), v(500_000, 0)];
    let dg = DifferentialGrowth::new(pts, 1500, 1000, 14_000, 1100, 1_000_000);
    let forces = dg.get_separation_forces();
    assert_eq!((forces[0].x, forces[0].y), (0, 0));
    assert_eq!((forces[1].x, forces[1].y), (0, 0));
}

#[test]
fn cohesion_seeks_neighbor_midpoint() {
    // On the square, each node's curve-neighbors straddle the origin, so
    // every cohesion force points inward with magnitude max_speed.
    let dg = DifferentialGrowth::new(square_radius_10(), 1500, 1000, 14_000, 1100, 5000);
    let forces = dg.get_edge_cohesion_forces();
    assert_eq!(forces.len(), 4);
    assert_eq!((forces[0].x, forces[0].y), (-1000, 0));
    assert_eq!((forces[1].x, forces[1].y), (0, -1000));
    assert_eq!((forces[2].x, forces[2].y), (1000, 0));
    assert_eq!((forces[3].x, forces[3].y), (0, 1000));
}

#[test]
fn new_then_get_points_roundtrip() {
    let pts = square_radius_10();
    let dg = DifferentialGrowth::new(pts.clone(), 1500, 1000, 14_000, 1100, 5000);
    let back = dg.get_points();
    assert_eq!(back.len(), pts.len());
    for i in 0..pts.len() {
        assert_eq!(back[i].x, pts[i].x);
        assert_eq!(back[i].y, pts[i].y);
    }
}
