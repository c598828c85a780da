use dynamic_prm::Obstacle;
use dynamic_prm::ObstacleSet;
use dynamic_prm::geometry::Point;

fn obstacle(x1: i64, y1: i64, x2: i64, y2: i64, id: u128) -> Obstacle {
    Obstacle::with_id(Point::new(x1, y1), Point::new(x2, y2), id)
}

#[test]
fn plain_construction_uses_placeholder_id() {
    let o = Obstacle::new(Point::new(2000, 1000), Point::new(1000, 3000));
    assert_eq!(o.id(), 0);
    assert_eq!(o.rect.x_min, 1000);
    assert_eq!(o.rect.x_max, 2000);
    assert_eq!(o.rect.y_min, 1000);
    assert_eq!(o.rect.y_max, 3000);
}

#[test]
fn containment_and_intersection_queries() {
    let mut s = ObstacleSet::new();
    assert!(!s.contains(&Point::new(500, 500)));
    s.add(obstacle(0, 0, 1000, 1000, 1));
    s.add(obstacle(5000, 5000, 6000, 6000, 2));
    assert!(s.contains(&Point::new(500, 500)));
    assert!(s.contains(&Point::new(5500, 5500)));
    assert!(!s.contains(&Point::new(3000, 3000)));
    assert!(s.intersects(&Point::new(-500, 500), &Point::new(1500, 500)));
    assert!(!s.intersects(&Point::new(2000, 2000), &Point::new(3000, 3000)));
}

#[test]
fn add_replaces_an_existing_identifier() {
    let mut s = ObstacleSet::new();
    s.add(obstacle(0, 0, 1000, 1000, 7));
    s.add(obstacle(2000, 2000, 3000, 3000, 7));
    assert_eq!(s.obstacles.len(), 1);
    assert_eq!(s.obstacles[0].rect.x_min, 2000);
}

#[test]
fn removal_is_keyed_by_identity() {
    let mut s = ObstacleSet::new();
    s.add(obstacle(0, 0, 1000, 1000, 1));
    s.add(obstacle(0, 0, 1000, 1000, 2));
    s.add(obstacle(5000, 5000, 6000, 6000, 3));
    // removing one of two obstacles sharing a rectangle keeps the twin
    s.remove(&obstacle(0, 0, 1000, 1000, 1));
    assert_eq!(s.obstacles.len(), 2);
    assert_eq!(s.obstacles[0].id(), 2);
    assert_eq!(s.obstacles[1].id(), 3);
    s.remove_by_id(3);
    assert_eq!(s.obstacles.len(), 1);
    // removing an absent identifier changes nothing
    s.remove_by_id(3);
    assert_eq!(s.obstacles.len(), 1);
    assert_eq!(s.obstacles[0].id(), 2);
}

#[test]
fn obstacle_point_query() {
    let o = obstacle(1000, 1000, 2000, 2000, 4);
    assert!(o.contains(&Point::new(1000, 2000)));
    assert!(!o.contains(&Point::new(999, 1500)));
    assert!(o.intersects(&Point::new(0, 1500), &Point::new(3000, 1500)));
    assert!(!o.intersects(&Point::new(0, 0), &Point::new(3000, 0)));
}
