use dynamic_prm::DPrm;
use dynamic_prm::Obstacle;
use dynamic_prm::ObstacleSet;
use dynamic_prm::PrmConfig;
use dynamic_prm::PrmError;
use dynamic_prm::geometry::Point;

fn cfg_100() -> PrmConfig {
    PrmConfig::new(100, 10, 10, [0u8; 32], 4)
}

fn build(cfg: PrmConfig, obstacles: Vec<Obstacle>) -> DPrm {
    DPrm::from_cfg(cfg, ObstacleSet::from_vec(obstacles)).expect("valid configuration")
}

fn obstacle(x1: i64, y1: i64, x2: i64, y2: i64, id: u128) -> Obstacle {
    Obstacle::with_id(Point::new(x1, y1), Point::new(x2, y2), id)
}

/// Checks the blocking-count and adjacency invariants on concrete state.
fn check_invariants(d: &DPrm) {
    // block_count[e] equals the number of blocked lists containing e
    for e in 0..d.edges.len() {
        let mut n = 0;
        for (_, list) in &d.blocked_per_obstacle {
            if list.contains(&e) {
                n += 1;
            }
        }
        assert_eq!(d.blockings_per_edge[e], n, "blocking count of edge {}", e);
    }
    // a free edge appears exactly once at each endpoint, a blocked one never
    for e in 0..d.edges.len() {
        let edge = &d.edges[e];
        let (u, v) = edge.points;
        let in_u = d.neighbors.inner[u]
            .iter()
            .filter(|p| **p == (v, edge.length))
            .count();
        let in_v = d.neighbors.inner[v]
            .iter()
            .filter(|p| **p == (u, edge.length))
            .count();
        if d.blockings_per_edge[e] == 0 {
            assert_eq!(in_u, 1);
            assert_eq!(in_v, 1);
        } else {
            assert_eq!(in_u, 0);
            assert_eq!(in_v, 0);
        }
    }
}

#[test]
fn invalid_configuration_is_rejected() {
    let bad = PrmConfig::new(0, 10, 10, [0u8; 32], 4);
    match DPrm::from_cfg(bad, ObstacleSet::new()) {
        Err(PrmError::ConfigInvalid) => {}
        _ => panic!("a zero vertex count must be rejected"),
    }
    let bad2 = PrmConfig::new(100, 0, 10, [0u8; 32], 4);
    assert!(matches!(DPrm::from_cfg(bad2, ObstacleSet::new()), Err(PrmError::ConfigInvalid)));
    let bad3 = PrmConfig::new(100, 10, 10, [0u8; 32], 0);
    assert!(matches!(DPrm::from_cfg(bad3, ObstacleSet::new()), Err(PrmError::ConfigInvalid)));
}

#[test]
fn construction_determinism() {
    let d1 = build(cfg_100(), vec![]);
    let d2 = build(cfg_100(), vec![]);
    assert_eq!(d1.vertices, d2.vertices);
    assert_eq!(d1.edges, d2.edges);
    assert_eq!(d1.blockings_per_edge, d2.blockings_per_edge);
    assert_eq!(d1.blocked_per_obstacle, d2.blocked_per_obstacle);
    assert_eq!(d1.neighbors.inner, d2.neighbors.inner);
    assert!(d1.edges.len() > 0, "the sample configuration must produce edges");
    // a different seed produces different samples
    let d3 = build(PrmConfig::new(100, 10, 10, [7u8; 32], 4), vec![]);
    assert_ne!(d1.vertices, d3.vertices);
    check_invariants(&d1);
}

#[test]
fn worker_count_does_not_change_the_roadmap() {
    let d1 = build(PrmConfig::new(100, 10, 10, [0u8; 32], 1), vec![]);
    let d4 = build(PrmConfig::new(100, 10, 10, [0u8; 32], 4), vec![]);
    let d7 = build(PrmConfig::new(100, 10, 10, [0u8; 32], 7), vec![]);
    assert_eq!(d1.vertices, d4.vertices);
    assert_eq!(d1.edges, d4.edges);
    assert_eq!(d1.edges, d7.edges);
}

#[test]
fn single_blocker() {
    let mut d = build(cfg_100(), vec![]);
    check_invariants(&d);
    let free_before = d.get_all_free_edges();
    let o = obstacle(4000, 4000, 6000, 6000, 1);
    let expected = d.find_blocked_by_obstacle(&o);
    let newly = d.insert_obstacle(o);
    assert_eq!(newly, expected, "with no prior obstacle every blocked edge is newly blocked");
    for &e in &newly {
        let edge = &d.edges[e];
        assert!(dynamic_prm::geometry::seg_intersects_rect_exec(&edge.a, &edge.b, &o.rect));
    }
    let free_after = d.get_all_free_edges();
    assert_eq!(free_after.len() + expected.len(), free_before.len());
    check_invariants(&d);
}

#[test]
fn insert_then_remove_restores_state() {
    let mut d = build(cfg_100(), vec![]);
    let free_orig = d.get_all_free_edges();
    let bc_orig = d.blockings_per_edge.clone();
    let a = obstacle(2000, 2000, 5000, 5000, 10);
    let b = obstacle(5000, 5000, 8000, 8000, 11);
    d.insert_obstacle(a);
    let free_a = d.get_all_free_edges();
    assert!(free_a.len() < free_orig.len());
    d.insert_obstacle(b);
    let _free_ab = d.get_all_free_edges();
    let removed_a = d.remove_obstacle(10);
    assert!(!removed_a.is_empty());
    let free_b = d.get_all_free_edges();
    let removed_b = d.remove_obstacle(11);
    let free_none = d.get_all_free_edges();
    assert_eq!(free_none, free_orig);
    assert_eq!(d.blockings_per_edge, bc_orig);
    assert!(d.obstacles.obstacles.is_empty());
    assert!(d.blocked_per_obstacle.is_empty());
    // free set after removing A equals the free set of an engine built with only B
    let d_b = build(cfg_100(), vec![b]);
    assert_eq!(free_b, d_b.get_all_free_edges());
    let _ = removed_b;
    check_invariants(&d);
}

#[test]
fn removal_of_unknown_obstacle_is_a_no_op() {
    let mut d = build(cfg_100(), vec![]);
    let bc = d.blockings_per_edge.clone();
    let delta = d.remove_obstacle(424242);
    assert!(delta.is_empty());
    assert_eq!(d.blockings_per_edge, bc);
    assert!(d.obstacles.obstacles.is_empty());
}

#[test]
fn duplicate_rectangle_insertions_are_counted() {
    let mut d = build(cfg_100(), vec![]);
    let o1 = obstacle(4000, 4000, 6000, 6000, 21);
    let o2 = obstacle(4000, 4000, 6000, 6000, 22);
    let blocked = d.find_blocked_by_obstacle(&o1);
    d.insert_obstacle(o1);
    let adjacency = d.neighbors.inner.clone();
    let newly2 = d.insert_obstacle(o2);
    assert!(newly2.is_empty(), "the second identical obstacle blocks nothing newly");
    for &e in &blocked {
        assert_eq!(d.blockings_per_edge[e], 2);
    }
    let removed = d.remove_obstacle(21);
    assert!(removed.is_empty(), "the edge stays blocked by the twin obstacle");
    for &e in &blocked {
        assert_eq!(d.blockings_per_edge[e], 1);
    }
    assert_eq!(d.neighbors.inner, adjacency, "adjacency unchanged while the twin remains");
    check_invariants(&d);
}

#[test]
fn insertion_order_commutes() {
    let o1 = obstacle(1000, 1000, 3000, 3000, 31);
    let o2 = obstacle(6000, 6000, 9000, 9000, 32);
    let mut da = build(cfg_100(), vec![]);
    da.insert_obstacle(o1);
    da.insert_obstacle(o2);
    let mut db = build(cfg_100(), vec![]);
    db.insert_obstacle(o2);
    db.insert_obstacle(o1);
    assert_eq!(da.blockings_per_edge, db.blockings_per_edge);
    let mut ia: Vec<u128> = da.obstacles.obstacles.iter().map(|o| o.id()).collect();
    let mut ib: Vec<u128> = db.obstacles.obstacles.iter().map(|o| o.id()).collect();
    ia.sort();
    ib.sort();
    assert_eq!(ia, ib);
    for u in 0..da.neighbors.inner.len() {
        let mut ra = da.neighbors.inner[u].clone();
        let mut rb = db.neighbors.inner[u].clone();
        ra.sort();
        rb.sort();
        assert_eq!(ra, rb);
    }
    check_invariants(&da);
    check_invariants(&db);
}

#[test]
fn obstacle_outside_rectangle_blocks_nothing() {
    let mut d = build(cfg_100(), vec![]);
    let o = obstacle(-5000, -5000, -1000, -1000, 41);
    assert!(d.find_blocked_by_obstacle(&o).is_empty());
    let newly = d.insert_obstacle(o);
    assert!(newly.is_empty());
    assert!(d.blocked_per_obstacle.last().unwrap().1.is_empty());
    assert_eq!(d.get_all_blocked().len(), 0);
    check_invariants(&d);
}

#[test]
fn obstacle_covering_everything_blocks_everything() {
    let mut d = build(cfg_100(), vec![]);
    let o = obstacle(0, 0, 10_000, 10_000, 51);
    d.insert_obstacle(o);
    for e in 0..d.edges.len() {
        assert!(d.blockings_per_edge[e] >= 1);
    }
    assert!(d.get_all_free_edges().is_empty());
    let path = d.run_astar(&0, &1);
    assert!(path.is_none(), "no path between distinct vertices when everything is blocked");
    check_invariants(&d);
}

#[test]
fn initial_obstacles_match_late_insertion() {
    let o = obstacle(4000, 4000, 6000, 6000, 61);
    let d1 = build(cfg_100(), vec![o]);
    let mut d2 = build(cfg_100(), vec![]);
    d2.insert_obstacle(o);
    assert_eq!(d1.blockings_per_edge, d2.blockings_per_edge);
    assert_eq!(d1.blocked_per_obstacle, d2.blocked_per_obstacle);
    check_invariants(&d1);
}

#[test]
fn nearest_vertex_is_free_and_closest() {
    let mut d = build(cfg_100(), vec![]);
    let p = Point::new(0, 0);
    let v = d.get_nearest(p);
    assert!(d.is_free(&v.point));
    let dv = dynamic_prm::geometry::dist2_exec(&v.point, &p);
    for w in &d.vertices {
        if d.is_free(&w.point) {
            assert!(dv <= dynamic_prm::geometry::dist2_exec(&w.point, &p));
        }
    }
    // covering half the space forces the nearest free vertex outside it
    d.insert_obstacle(obstacle(0, 0, 5000, 10_000, 71));
    let v2 = d.get_nearest(p);
    assert!(v2.point.x > 5000);
}

#[test]
fn contains_obstacle_tracks_the_set() {
    let mut d = build(cfg_100(), vec![]);
    assert!(!d.contains_obstacle(81));
    d.insert_obstacle(obstacle(1000, 1000, 2000, 2000, 81));
    assert!(d.contains_obstacle(81));
    d.remove_obstacle(81);
    assert!(!d.contains_obstacle(81));
}

#[test]
fn reinserting_an_identifier_replaces_its_obstacle() {
    let mut d = build(cfg_100(), vec![]);
    let bc_orig = d.blockings_per_edge.clone();
    d.insert_obstacle(obstacle(1000, 1000, 4000, 4000, 91));
    d.insert_obstacle(obstacle(6000, 6000, 9000, 9000, 91));
    assert_eq!(d.obstacles.obstacles.len(), 1);
    // the state equals inserting only the replacement
    let mut d2 = build(cfg_100(), vec![]);
    d2.insert_obstacle(obstacle(6000, 6000, 9000, 9000, 91));
    assert_eq!(d.blockings_per_edge, d2.blockings_per_edge);
    assert_eq!(d.blocked_per_obstacle, d2.blocked_per_obstacle);
    check_invariants(&d);
    // removing it restores the empty state
    d.remove_obstacle(91);
    assert_eq!(d.blockings_per_edge, bc_orig);
}
