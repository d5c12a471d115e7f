use quadtree::Bound;
use quadtree::Point2D;
use quadtree::QuadTree;

#[test]
fn test_contains() {
    let mut qt = QuadTree::<Point2D>::new(Bound::new((0, 0), 800, 800));
    let p = Point2D::new(600, 600);
    let q = Point2D::new(700, 600);
    qt.insert_all(vec![p, q]);
    let g = Point2D::new(600, 200);
    assert!(qt.subtree(1).bounds.contains(&(g.x, g.y)));
}

#[test]
fn test_query_all() {
    let mut qt = QuadTree::<Point2D>::new(Bound::new((0, 0), 800, 800));
    let p = Point2D::new(600, 600);
    let q = Point2D::new(700, 600);
    qt.insert_all(vec![p, q]);
    assert_eq!(qt.query_all().len(), 2);
}

#[test]
fn test_subdivide() {
    let mut qt = QuadTree::<Point2D>::new(Bound::new((0, 0), 800, 800));
    let p = Point2D::new(600, 600);
    let q = Point2D::new(700, 600);
    qt.insert_all(vec![p, q]);
    assert!(!qt.is_leaf());
}

#[test]
fn test_insert() {
    let mut qt = QuadTree::<Point2D>::new(Bound::new((0, 0), 800, 800));
    let p = Point2D::new(600, 600);
    let q = Point2D::new(700, 600);
    qt.insert_all(vec![p, q]);
    // Both points fall in the bottom-right quadrant; after the root
    // subdivides, that whole subtree holds them and the other three hold
    // nothing.
    assert_eq!(qt.subtree(3).query_all().len(), 2);
    assert_eq!(qt.subtree(0).query_all().len(), 0);
    assert_eq!(qt.subtree(1).query_all().len(), 0);
    assert_eq!(qt.subtree(2).query_all().len(), 0);
}
