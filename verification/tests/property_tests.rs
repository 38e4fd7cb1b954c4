use quadtree::Item;
use quadtree::Options;
use quadtree::Point;
use quadtree::Quadtree;
use quadtree::Rectangle;

#[test]
fn test_out_of_bounds_put_is_noop() {
    let entity = ();
    let mut qt = Quadtree::new(Rectangle::new(0, 0, 100, 100));
    qt.put(Item::new(Point::new(10, 10), &entity));
    qt.put(Item::new(Point::new(-10, -10), &entity));
    assert!(qt.children.is_none());
    assert_eq!(qt.items.len(), 1);

    let found = qt.query(Rectangle::new(0, 0, 100, 100));
    assert_eq!(found.len(), 1);
    assert_eq!(found[0].point, Point::new(10, 10));
}

#[test]
fn test_geometry_predicates_repeatable() {
    let qt = Quadtree::<Item<i64>>::new(Rectangle::new(0, 0, 100, 100));
    let p = Point::new(7, 93);
    let r = Rectangle::new(5, 5, 50, 50);
    let s = Rectangle::new(20, 10, 10, 10);
    assert_eq!(qt._contains(&p, &r), qt._contains(&p, &r));
    assert_eq!(qt.intersects(&r, &s), qt.intersects(&r, &s));
    assert!(qt._contains(&Point::new(5, 5), &r));
    assert!(!qt._contains(&Point::new(4, 5), &r));
}

#[test]
fn test_depth_ceiling_never_splits() {
    let entity = ();
    let mut qt = Quadtree::with_options(
        Rectangle::new(0, 0, 100, 100),
        Options { max_items: 1, max_depth: 0, depth: 0 },
    );
    qt.put(Item::new(Point::new(10, 10), &entity));
    qt.put(Item::new(Point::new(60, 10), &entity));
    qt.put(Item::new(Point::new(60, 60), &entity));
    assert!(qt.children.is_none());
    assert_eq!(qt.items.len(), 3);

    let found = qt.query(Rectangle::new(0, 0, 100, 100));
    assert_eq!(found.len(), 3);
}

#[test]
fn test_full_bounds_query_returns_everything() {
    let entity = ();
    let mut qt = Quadtree::new(Rectangle::new(0, 0, 100, 100));
    qt.put(Item::new(Point::new(0, 0), &entity));
    qt.put(Item::new(Point::new(100, 100), &entity));
    qt.put(Item::new(Point::new(50, 50), &entity));
    let found = qt.query(Rectangle::new(0, 0, 100, 100));
    assert_eq!(found.len(), 3);
}

#[test]
fn test_boundary_point_found_once() {
    let entity = ();
    let mut qt = Quadtree::with_options(
        Rectangle::new(0, 0, 200, 200),
        Options { max_items: 1, ..Default::default() },
    );
    qt.put(Item::new(Point::new(10, 10), &entity));
    // (100, 100) lies on the shared corner of all four quadrants; the
    // first matching child (top-left) receives it.
    qt.put(Item::new(Point::new(100, 100), &entity));
    match qt.children {
        Some(ref ch) => {
            assert_eq!(ch.top_left.items.len(), 2);
            assert_eq!(ch.top_right.items.len(), 0);
            assert_eq!(ch.bottom_right.items.len(), 0);
            assert_eq!(ch.bottom_left.items.len(), 0);
        }
        None => panic!(),
    }
    let near_corner = qt.query(Rectangle::new(90, 90, 20, 20));
    assert_eq!(near_corner.len(), 1);
    assert_eq!(near_corner[0].point, Point::new(100, 100));

    let everything = qt.query(Rectangle::new(0, 0, 200, 200));
    assert_eq!(everything.len(), 2);
}

#[test]
fn test_negative_extent_bounds() {
    let entity = ();
    let mut qt = Quadtree::new(Rectangle::new(0, 0, -10, -10));
    // An inverted rectangle contains no point, so every put is a no-op.
    qt.put(Item::new(Point::new(-5, -5), &entity));
    qt.put(Item::new(Point::new(0, 0), &entity));
    assert!(qt.children.is_none());
    assert_eq!(qt.items.len(), 0);
    let found = qt.query(Rectangle::new(-20, -20, 40, 40));
    assert_eq!(found.len(), 0);
}

#[test]
fn test_extreme_coordinates() {
    let entity = ();
    let mut qt = Quadtree::new(Rectangle::new(i32::MIN, i32::MIN, i32::MAX, i32::MAX));
    qt.put(Item::new(Point::new(-100, -100), &entity));
    assert_eq!(qt.items.len(), 1);
    let found = qt.query(Rectangle::new(i32::MIN, i32::MIN, i32::MAX, i32::MAX));
    assert_eq!(found.len(), 1);
    assert_eq!(found[0].point, Point::new(-100, -100));
}
