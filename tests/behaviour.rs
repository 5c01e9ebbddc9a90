use quadtree::{Point, Quadtree, QuadtreeError, Rectangle, NODE_CAPACITY};

#[test]
fn contains_includes_every_edge() {
    let rect = Rectangle::new(10, 20, 5, 3);
    assert!(rect.contains(&Point::new(5, 20)));
    assert!(rect.contains(&Point::new(15, 20)));
    assert!(rect.contains(&Point::new(10, 17)));
    assert!(rect.contains(&Point::new(10, 23)));
    assert!(rect.contains(&Point::new(15, 23)));
    assert!(!rect.contains(&Point::new(4, 20)));
    assert!(!rect.contains(&Point::new(16, 20)));
    assert!(!rect.contains(&Point::new(10, 16)));
    assert!(!rect.contains(&Point::new(10, 24)));
}

#[test]
fn zero_extent_rectangle_contains_only_its_center() {
    let rect = Rectangle::new(3, -4, 0, 0);
    assert!(rect.contains(&Point::new(3, -4)));
    assert!(!rect.contains(&Point::new(3, -3)));
}

#[test]
fn contains_at_the_extremes_of_the_coordinate_range() {
    let rect = Rectangle::new(i32::MAX, i32::MIN, i32::MAX, i32::MAX);
    assert!(rect.contains(&Point::new(i32::MAX, i32::MIN)));
    assert!(rect.contains(&Point::new(0, -1)));
    assert!(!rect.contains(&Point::new(-1, 0)));
}

#[test]
fn intersects_is_symmetric_and_reflexive() {
    let a = Rectangle::new(0, 0, 2, 2);
    let b = Rectangle::new(5, 1, 3, 1);
    let c = Rectangle::new(10, 10, 1, 1);
    assert!(a.intersects(&b) && b.intersects(&a));
    assert!(!a.intersects(&c) && !c.intersects(&a));
    assert!(a.intersects(&a));
    assert!(c.intersects(&c));
}

#[test]
fn touching_edges_intersect() {
    let a = Rectangle::new(0, 0, 2, 2);
    let b = Rectangle::new(4, 4, 2, 2);
    let c = Rectangle::new(5, 0, 2, 2);
    assert!(a.intersects(&b));
    assert!(!a.intersects(&c));
}

#[test]
fn quadrants_split_the_half_extent() {
    let rect = Rectangle::new(50, 50, 50, 50);
    assert_eq!(rect.quadrant(0), Rectangle::new(25, 25, 25, 25));
    assert_eq!(rect.quadrant(1), Rectangle::new(75, 25, 25, 25));
    assert_eq!(rect.quadrant(2), Rectangle::new(25, 75, 25, 25));
    assert_eq!(rect.quadrant(3), Rectangle::new(75, 75, 25, 25));
    // An odd half extent is rounded up, the offset down: [-3, 3] splits into
    // [-3, 1] and [-1, 3].
    let odd = Rectangle::new(0, 0, 3, 3);
    assert_eq!(odd.quadrant(0), Rectangle::new(-1, -1, 2, 2));
    assert_eq!(odd.quadrant(3), Rectangle::new(1, 1, 2, 2));
}

#[test]
fn out_of_bounds_insert_leaves_queries_unchanged() {
    let inside = [Point::new(1, 1), Point::new(-7, 9)];
    let outside = Point::new(101, 0);
    let mut tree = Quadtree::new(0, 0, 100, 100);
    for p in inside.iter() {
        tree.insert(p).unwrap();
    }
    let everything = Rectangle::new(0, 0, 200, 200);
    let before = tree.query(&everything);
    assert_eq!(tree.insert(&outside), Err(QuadtreeError::OutOfBounds));
    let after = tree.query(&everything);
    assert_eq!(before, after);
    assert_eq!(after.len(), 2);
}

#[test]
fn query_of_root_boundary_reports_every_entry_once() {
    let points: Vec<Point> = (0..40).map(|i| Point::new((i * 7) % 100, (i * 13) % 100)).collect();
    let mut tree = Quadtree::new(50, 50, 50, 50);
    for p in points.iter() {
        tree.insert(p).unwrap();
    }
    let mut found: Vec<Point> = tree.query(&tree.boundary()).into_iter().copied().collect();
    let mut expected = points.clone();
    found.sort_by_key(|p| (p.x, p.y));
    expected.sort_by_key(|p| (p.x, p.y));
    assert_eq!(found, expected);
}

#[test]
fn query_disjoint_from_root_is_empty() {
    let points: Vec<Point> = (0..20).map(|i| Point::new(i, 2 * i)).collect();
    let mut tree = Quadtree::new(0, 0, 50, 50);
    for p in points.iter() {
        tree.insert(p).unwrap();
    }
    assert!(tree.query(&Rectangle::new(200, 200, 10, 10)).is_empty());
}

#[test]
fn node_subdivides_only_past_capacity() {
    let points: Vec<Point> = (0..5).map(|i| Point::new(i, i)).collect();
    let mut tree = Quadtree::new(0, 0, 10, 10);
    for p in points.iter().take(NODE_CAPACITY) {
        tree.insert(p).unwrap();
    }
    assert!(tree.quadrant(0).is_none());
    assert_eq!(tree.entries().len(), NODE_CAPACITY);
    tree.insert(&points[4]).unwrap();
    for i in 0..4 {
        assert!(tree.quadrant(i).is_some());
    }
    assert!(tree.quadrant(4).is_none());
    let own: Vec<Point> = tree.entries().iter().map(|p| **p).collect();
    assert_eq!(own, points[..4].to_vec());
}

#[test]
fn diagonal_scenario_keeps_insertion_order() {
    let points: Vec<Point> = (0..100).map(|i| Point::new(i, i)).collect();
    let mut tree = Quadtree::new(50, 50, 50, 50);
    for p in points.iter() {
        tree.insert(p).unwrap();
    }
    // The closed range [0, 50] x [0, 50] also holds (50, 50), on its corner.
    let found: Vec<Point> = tree.query(&Rectangle::new(25, 25, 25, 25)).into_iter().copied().collect();
    assert_eq!(found, points[..=50].to_vec());
    assert!(tree.query(&Rectangle::new(25, 75, 20, 20)).is_empty());
}

#[test]
fn quadrant_scenario_routes_fifth_entry_south_east() {
    let points = [
        Point::new(25, 25),
        Point::new(75, 25),
        Point::new(25, 75),
        Point::new(75, 75),
        Point::new(80, 80),
    ];
    let mut tree = Quadtree::new(50, 50, 50, 50);
    for p in points.iter() {
        tree.insert(p).unwrap();
    }
    assert_eq!(tree.entries().len(), 4);
    assert_eq!(tree.quadrant(0).unwrap().query(&tree.boundary()).len(), 0);
    assert_eq!(tree.quadrant(1).unwrap().query(&tree.boundary()).len(), 0);
    assert_eq!(tree.quadrant(2).unwrap().query(&tree.boundary()).len(), 0);
    let south_east = tree.quadrant(3).unwrap().query(&tree.boundary());
    assert_eq!(south_east.len(), 1);
    assert_eq!(*south_east[0], Point::new(80, 80));
}
