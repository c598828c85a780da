use dynamic_prm::DPrm;
use dynamic_prm::Obstacle;
use dynamic_prm::ObstacleSet;
use dynamic_prm::PrmConfig;
use dynamic_prm::PrmError;
use dynamic_prm::geometry::Point;

fn build(cfg: PrmConfig, obstacles: Vec<Obstacle>) -> DPrm {
    DPrm::from_cfg(cfg, ObstacleSet::from_vec(obstacles)).expect("valid configuration")
}

fn sorted_rows(d: &DPrm) -> Vec<Vec<(usize, u64)>> {
    d.neighbors.inner
        .iter()
        .map(|row| {
            let mut r = row.clone();
            r.sort();
            r
        })
        .collect()
}

#[test]
fn round_trip_restores_the_engine() {
    let o = Obstacle::with_id(Point::new(4000, 4000), Point::new(6000, 6000), 5);
    let mut d = build(PrmConfig::new(100, 10, 10, [0u8; 32], 4), vec![]);
    d.insert_obstacle(o);
    d.insert_obstacle(Obstacle::with_id(Point::new(1000, 1000), Point::new(2000, 9000), 6));
    d.remove_obstacle(5);
    let bytes = d.to_bytes();
    let d2 = DPrm::from_bytes(&bytes).expect("a saved engine reloads");
    assert_eq!(d.vertices, d2.vertices);
    assert_eq!(d.edges, d2.edges);
    assert_eq!(d.blockings_per_edge, d2.blockings_per_edge);
    assert_eq!(d.blocked_per_obstacle, d2.blocked_per_obstacle);
    assert_eq!(sorted_rows(&d), sorted_rows(&d2));
    // shortest-path answers agree
    let p1 = d.run_astar(&0, &17);
    let p2 = d2.run_astar(&0, &17);
    match (p1, p2) {
        (Some(a), Some(b)) => assert_eq!(a.length, b.length),
        (None, None) => {}
        _ => panic!("reachability must agree after a reload"),
    }
}

#[test]
fn round_trip_without_obstacles() {
    let d = build(PrmConfig::new(50, 5, 5, [3u8; 32], 2), vec![]);
    let bytes = d.to_bytes();
    let d2 = DPrm::from_bytes(&bytes).expect("a saved engine reloads");
    assert_eq!(d.vertices, d2.vertices);
    assert_eq!(d.edges, d2.edges);
    assert_eq!(d.neighbors.inner, d2.neighbors.inner);
    assert_eq!(d.blockings_per_edge, d2.blockings_per_edge);
}

#[test]
fn truncated_image_is_rejected() {
    let d = build(PrmConfig::new(20, 5, 5, [0u8; 32], 2), vec![]);
    let bytes = d.to_bytes();
    let cut = bytes[..bytes.len() - 1].to_vec();
    assert!(matches!(DPrm::from_bytes(&cut), Err(PrmError::PersistenceError)));
}

#[test]
fn corrupted_image_is_rejected() {
    let mut d = build(PrmConfig::new(20, 5, 5, [0u8; 32], 2), vec![]);
    d.insert_obstacle(Obstacle::with_id(Point::new(1000, 1000), Point::new(3000, 3000), 9));
    let mut bytes = d.to_bytes();
    // corrupt the first vertex record (it follows the 88-byte header and
    // the 8-byte vertex count)
    bytes[96] ^= 0xff;
    assert!(DPrm::from_bytes(&bytes).is_err());
    // garbage header
    let garbage = vec![0xffu8; 16];
    assert!(matches!(DPrm::from_bytes(&garbage), Err(PrmError::PersistenceError)));
    // an empty image
    assert!(matches!(DPrm::from_bytes(&Vec::new()), Err(PrmError::PersistenceError)));
    // trailing garbage after a valid image
    let mut ok_bytes = d.to_bytes();
    ok_bytes.push(0);
    assert!(matches!(DPrm::from_bytes(&ok_bytes), Err(PrmError::PersistenceError)));
}
