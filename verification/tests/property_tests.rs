use quadtree::Bound;
use quadtree::Point2D;
use quadtree::QuadTree;
use quadtree::CAPACITY;

#[test]
fn bound_contains_is_half_open() {
    let b = Bound::new((0, 0), 10, 10);
    assert!(b.contains(&(0, 0)));
    assert!(b.contains(&(9, 9)));
    assert!(!b.contains(&(10, 5)));
    assert!(!b.contains(&(5, 10)));
    assert!(!b.contains(&(-1, 5)));
}

#[test]
fn bound_intersects_overlap() {
    let a = Bound::new((0, 0), 10, 10);
    assert!(a.intersects(&Bound::new((5, 5), 10, 10)));
    assert!(a.intersects(&Bound::new((10, 0), 5, 5)));
    assert!(!a.intersects(&Bound::new((11, 0), 2, 2)));
    assert!(!a.intersects(&Bound::new((0, 20), 5, 5)));
}

#[test]
fn inserted_point_found_once_by_covering_query() {
    let mut qt = QuadTree::<Point2D>::new(Bound::new((0, 0), 800, 800));
    let e = Point2D::new(123, 456);
    assert!(qt.insert(e).is_none());
    let hits = qt.query(&Bound::new((100, 400), 50, 100));
    assert_eq!(hits.len(), 1);
    assert_eq!(*hits[0], e);
}

#[test]
fn rejected_insert_leaves_tree_unchanged() {
    let mut qt = QuadTree::<Point2D>::new(Bound::new((0, 0), 800, 800));
    assert!(qt.insert(Point2D::new(10, 10)).is_none());
    let stray = Point2D::new(800, 10);
    let rejected = qt.insert(stray);
    assert_eq!(rejected, Some(stray));
    assert_eq!(qt.query_all().len(), 1);
    assert!(qt.is_leaf());
}

#[test]
fn query_all_counts_every_successful_insertion() {
    let mut qt = QuadTree::<Point2D>::new(Bound::new((0, 0), 800, 800));
    let points = vec![
        Point2D::new(10, 10),
        Point2D::new(790, 10),
        Point2D::new(10, 790),
        Point2D::new(790, 790),
        Point2D::new(400, 400),
    ];
    qt.insert_all(points);
    assert_eq!(qt.query_all().len(), 5);
}

#[test]
fn clear_resets_to_empty_leaf() {
    let mut qt = QuadTree::<Point2D>::new(Bound::new((0, 0), 800, 800));
    qt.insert_all(vec![Point2D::new(600, 600), Point2D::new(100, 100)]);
    assert!(!qt.is_leaf());
    qt.clear();
    assert!(qt.query_all().is_empty());
    assert!(qt.is_leaf());
    assert_eq!(qt.bounds, Bound::new((0, 0), 800, 800));
}

#[test]
fn quadrant_bounds_partition_parent() {
    let qt = {
        let mut t = QuadTree::<Point2D>::new(Bound::new((0, 0), 800, 800));
        t.insert_all(vec![Point2D::new(100, 100), Point2D::new(600, 600)]);
        t
    };
    assert_eq!(qt.subtree(0).bounds, Bound::new((0, 0), 400, 400));
    assert_eq!(qt.subtree(1).bounds, Bound::new((400, 0), 400, 400));
    assert_eq!(qt.subtree(2).bounds, Bound::new((0, 400), 400, 400));
    assert_eq!(qt.subtree(3).bounds, Bound::new((400, 400), 400, 400));
    // Every point of the parent lies in exactly one quadrant.
    for &p in &[(0, 0), (399, 399), (400, 0), (0, 400), (400, 400), (799, 799), (200, 600)] {
        let mut owners: u32 = 0;
        for i in 0..4 {
            if qt.subtree(i).bounds.contains(&p) {
                owners += 1;
            }
        }
        assert_eq!(owners, 1);
    }
}

#[test]
fn capacity_trigger_subdivides_once() {
    let mut qt = QuadTree::<Point2D>::new(Bound::new((0, 0), 800, 800));
    // CAPACITY + 1 entities with distinct positions in distinct quadrants.
    let mut points = Vec::new();
    for k in 0..(CAPACITY + 1) {
        points.push(Point2D::new(100 + 500 * (k as i64 % 2), 100));
    }
    qt.insert_all(points);
    assert!(!qt.is_leaf());
    assert_eq!(qt.item_count(), 0);
    for i in 0..4 {
        assert!(qt.subtree(i).is_leaf());
        assert!(qt.subtree(i).item_count() <= CAPACITY);
    }
}

#[test]
fn scenario_two_points_in_800_square() {
    let mut qt = QuadTree::<Point2D>::new(Bound::new((0, 0), 800, 800));
    qt.insert_all(vec![Point2D::new(600, 600), Point2D::new(700, 600)]);
    assert!(!qt.is_leaf());
    for i in 0..4 {
        assert_eq!(qt.subtree(i).bounds.x, 400);
        assert_eq!(qt.subtree(i).bounds.y, 400);
    }
    // Both points lie in the quadrant anchored at (400, 400); the
    // half-open convention puts (700, 600) there and in no other.
    let anchored = qt.subtree(3);
    assert_eq!(anchored.bounds.pos, (400, 400));
    assert!(anchored.bounds.contains(&(700, 600)));
    assert_eq!(qt.query_all().len(), 2);
    let top_left_hits = qt.query(&Bound::new((0, 0), 400, 400));
    assert!(top_left_hits.is_empty());
}

#[test]
fn query_disjoint_from_root_is_empty() {
    let mut qt = QuadTree::<Point2D>::new(Bound::new((0, 0), 800, 800));
    qt.insert_all(vec![Point2D::new(600, 600), Point2D::new(100, 100)]);
    let hits = qt.query(&Bound::new((900, 900), 50, 50));
    assert!(hits.is_empty());
}

#[test]
fn edge_point_belongs_to_exactly_one_quadrant() {
    let mut qt = QuadTree::<Point2D>::new(Bound::new((0, 0), 800, 800));
    qt.insert_all(vec![Point2D::new(100, 100), Point2D::new(600, 600)]);
    // (400, 200) sits on the vertical edge shared by quadrants 0 and 1.
    assert!(!qt.subtree(0).bounds.contains(&(400, 200)));
    assert!(qt.subtree(1).bounds.contains(&(400, 200)));
    // The shared corner of all four quadrants belongs to the last alone.
    let corner = (400, 400);
    assert!(!qt.subtree(0).bounds.contains(&corner));
    assert!(!qt.subtree(1).bounds.contains(&corner));
    assert!(!qt.subtree(2).bounds.contains(&corner));
    assert!(qt.subtree(3).bounds.contains(&corner));
}

#[test]
fn get_trees_lists_every_node_preorder() {
    let mut qt = QuadTree::<Point2D>::new(Bound::new((0, 0), 800, 800));
    assert_eq!(qt.get_trees().len(), 1);
    qt.insert_all(vec![Point2D::new(100, 100), Point2D::new(600, 600)]);
    let nodes = qt.get_trees();
    assert_eq!(nodes.len(), 5);
    assert_eq!(nodes[0].bounds, qt.bounds);
    assert_eq!(nodes[1].bounds, Bound::new((0, 0), 400, 400));
}

#[test]
fn deep_subdivision_keeps_all_points() {
    let mut qt = QuadTree::<Point2D>::new(Bound::new((0, 0), 800, 800));
    // Two nearby points force repeated subdivision of the same quadrant.
    qt.insert_all(vec![Point2D::new(600, 600), Point2D::new(700, 600)]);
    assert_eq!(qt.get_trees().len(), 13);
    assert_eq!(qt.query_all().len(), 2);
}

#[test]
fn duplicate_positions_stop_at_unit_cell() {
    let mut qt = QuadTree::<Point2D>::new(Bound::new((0, 0), 8, 8));
    let p = Point2D::new(3, 3);
    assert!(qt.insert(p).is_none());
    assert!(qt.insert(p).is_none());
    assert!(qt.insert(p).is_none());
    assert_eq!(qt.query_all().len(), 3);
    let hits = qt.query(&Bound::new((3, 3), 1, 1));
    assert_eq!(hits.len(), 3);
}
