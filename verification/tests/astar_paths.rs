use dynamic_prm::DPrm;
use dynamic_prm::Obstacle;
use dynamic_prm::ObstacleSet;
use dynamic_prm::PrmConfig;
use dynamic_prm::geometry::Point;

fn build(cfg: PrmConfig, obstacles: Vec<Obstacle>) -> DPrm {
    DPrm::from_cfg(cfg, ObstacleSet::from_vec(obstacles)).expect("valid configuration")
}

#[test]
fn single_vertex_roadmap() {
    // one vertex, no edges; the search start equals the goal
    let d = build(PrmConfig::new(1, 10, 10, [0u8; 32], 1), vec![]);
    assert_eq!(d.vertices.len(), 1);
    assert_eq!(d.edges.len(), 0);
    let path = d.run_astar(&0, &0).expect("the trivial path exists");
    assert_eq!(path.length, 0);
    assert_eq!(path.vertices.len(), 1);
    assert_eq!(path.vertices[0].index, 0);
}

#[test]
fn heuristic_is_rounded_distance() {
    let d = build(PrmConfig::new(100, 10, 10, [0u8; 32], 4), vec![]);
    for (i, j) in [(0usize, 1usize), (5, 17), (99, 0)] {
        let p = d.vertices[i].point;
        let q = d.vertices[j].point;
        let d2 = dynamic_prm::geometry::dist2_exec(&p, &q);
        assert_eq!(d.heuristic(&i, &j), dynamic_prm::geometry::rounded_dist_exec(d2));
    }
    assert_eq!(d.heuristic(&3, &3), 0);
}

#[test]
fn path_to_self_has_cost_zero() {
    let d = build(PrmConfig::new(100, 10, 10, [0u8; 32], 4), vec![]);
    let path = d.run_astar(&42, &42).expect("every vertex reaches itself");
    assert_eq!(path.length, 0);
    assert_eq!(path.vertices.len(), 1);
}

#[test]
fn path_follows_free_adjacency() {
    let d = build(PrmConfig::new(400, 20, 20, [1u8; 32], 4), vec![]);
    let start = d.get_nearest(Point::new(0, 0));
    let goal = d.get_nearest(Point::new(20_000, 20_000));
    let path = d
        .run_astar(&start.index, &goal.index)
        .expect("an open 20 by 20 roadmap with 400 vertices is connected");
    assert_eq!(path.vertices.first().unwrap().index, start.index);
    assert_eq!(path.vertices.last().unwrap().index, goal.index);
    // every consecutive pair is a free adjacency entry, and the costs sum up
    let mut total = 0u64;
    for w in path.vertices.windows(2) {
        let u = w[0].index;
        let v = w[1].index;
        let entry = d.neighbors.inner[u]
            .iter()
            .find(|p| p.0 == v)
            .expect("each step uses a free edge");
        total += entry.1;
    }
    assert!(total <= path.length);
}

#[test]
fn splitting_wall_disconnects() {
    let mut d = build(PrmConfig::new(400, 20, 20, [1u8; 32], 4), vec![]);
    let start = d.get_nearest(Point::new(0, 0));
    let goal = d.get_nearest(Point::new(20_000, 20_000));
    assert!(d.run_astar(&start.index, &goal.index).is_some());
    // a wall across the whole height splits the rectangle
    let wall = Obstacle::with_id(Point::new(9_000, 0), Point::new(11_000, 20_000), 99);
    d.insert_obstacle(wall);
    let start2 = d.get_nearest(Point::new(0, 0));
    let goal2 = d.get_nearest(Point::new(20_000, 20_000));
    assert!(d.run_astar(&start2.index, &goal2.index).is_none());
}

#[test]
fn successors_lists_only_free_edges() {
    let mut d = build(PrmConfig::new(100, 10, 10, [0u8; 32], 4), vec![]);
    let before: usize = (0..d.vertices.len()).map(|v| d.successors(v).len()).sum();
    assert!(before > 0);
    d.insert_obstacle(Obstacle::with_id(Point::new(0, 0), Point::new(10_000, 10_000), 7));
    let after: usize = (0..d.vertices.len()).map(|v| d.successors(v).len()).sum();
    assert_eq!(after, 0);
}

#[test]
fn planner_table_covers_all_candidate_edges() {
    let d = build(PrmConfig::new(100, 10, 10, [0u8; 32], 4), vec![]);
    let mut planner = dynamic_prm::Astar::new(d);
    planner.init_neighbours();
    let total: usize = planner.neighbours.inner.iter().map(|r| r.len()).sum();
    assert_eq!(total, 2 * planner.prm.edges.len());
    // each candidate edge appears once at each endpoint
    for e in &planner.prm.edges {
        let (u, v) = e.points;
        assert_eq!(
            planner.neighbours.inner[u].iter().filter(|p| **p == (v, e.length)).count(),
            1
        );
        assert_eq!(
            planner.neighbours.inner[v].iter().filter(|p| **p == (u, e.length)).count(),
            1
        );
    }
}

#[test]
fn basic_and_optimized_plans_agree_on_cost() {
    let d = build(PrmConfig::new(100, 10, 10, [0u8; 32], 4), vec![]);
    let mut planner = dynamic_prm::Astar::new(d);
    planner.init_neighbours();
    planner.optimized = true;
    let s = planner.prm.vertices[0];
    let g = planner.prm.vertices[50];
    let basic = planner.run_basic_astar(0, 50);
    let optimized = planner.run_astar(s, g);
    match (basic, optimized) {
        (Some((_, c1)), Some((_, c2))) => assert_eq!(c1, c2),
        (None, None) => {}
        _ => panic!("the two planners must agree on reachability"),
    }
}

#[test]
fn planner_ignores_obstacles() {
    // the planner works over the candidate set, so a wall changes nothing
    let mut d = build(PrmConfig::new(400, 20, 20, [1u8; 32], 4), vec![]);
    let start = d.get_nearest(Point::new(0, 0)).index;
    let goal = d.get_nearest(Point::new(20_000, 20_000)).index;
    let wall = Obstacle::with_id(Point::new(0, 9_000), Point::new(20_000, 11_000), 5);
    d.insert_obstacle(wall);
    assert!(d.run_astar(&start, &goal).is_none());
    let planner = dynamic_prm::Astar::new(d);
    assert!(planner.run_basic_astar(start, goal).is_some());
}

#[test]
fn basic_successors_match_incident_edges() {
    let d = build(PrmConfig::new(100, 10, 10, [0u8; 32], 4), vec![]);
    let planner = dynamic_prm::Astar::new(d);
    for v in [0usize, 13, 99] {
        let succ = planner.basic_successors(&v);
        let expected: usize = planner.prm.edges.iter()
            .filter(|e| e.points.0 == v || e.points.1 == v)
            .count();
        assert_eq!(succ.len(), expected);
    }
}

#[test]
fn planner_heuristic_matches_engine() {
    let d = build(PrmConfig::new(100, 10, 10, [0u8; 32], 4), vec![]);
    let h_engine = d.heuristic(&3, &77);
    let planner = dynamic_prm::Astar::new(d);
    assert_eq!(planner.heuristic(3, 77), h_engine);
}

#[test]
fn edge_updates_keep_the_table_consistent() {
    let d = build(PrmConfig::new(100, 10, 10, [0u8; 32], 4), vec![]);
    let mut planner = dynamic_prm::Astar::new(d);
    planner.init_neighbours();
    planner.optimized = true;
    let ids: Vec<usize> = vec![0, 1, 2];
    let before: usize = planner.neighbours.inner.iter().map(|r| r.len()).sum();
    planner.remove_edges(ids.clone());
    let mid: usize = planner.neighbours.inner.iter().map(|r| r.len()).sum();
    assert_eq!(mid + 6, before);
    planner.insert_edges(ids);
    let after: usize = planner.neighbours.inner.iter().map(|r| r.len()).sum();
    assert_eq!(after, before);
}
