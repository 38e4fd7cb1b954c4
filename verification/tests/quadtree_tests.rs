use quadtree::Item;
use quadtree::Options;
use quadtree::Point;
use quadtree::Position;
use quadtree::Quadtree;
use quadtree::Rectangle;

#[derive(Debug)]
struct Entity {
    id: i64,
    nickname: String,
}

impl Entity {
    fn new(id: i64, nickname: String) -> Self {
        Self { id, nickname }
    }
}

#[test]
fn test_points() {
    let p1 = Point::new(10, 5);
    assert_eq!(p1.x, 10);
    assert_eq!(p1.y, 5);
    assert_eq!(p1, Point::new(10, 5));
    assert_eq!(format!("Point: {}", p1.to_text()), "Point: (10, 5)");
}

#[test]
fn test_items() {
    let data1 = String::from("data1");
    let item1 = Item::new(Point::new(10, 5), &data1);
    assert_eq!(item1.point, Point::new(10, 5));
    assert_eq!(item1.position(), Point::new(10, 5));
    assert_eq!(item1.deref(), &data1);
}

#[test]
fn test_rectangles() {
    let rec1 = Rectangle::new(0, 1, 10, 5);
    assert_eq!(rec1.x, 0);
    assert_eq!(rec1.y, 1);
    assert_eq!(rec1.width, 10);
    assert_eq!(rec1.height, 5);
    assert_eq!(format!("Rectangle: {}", rec1.to_text()), "Rectangle: (0, 1, 10, 6)");
}

#[test]
fn test_contains() {
    let q1 = Quadtree::<Item<String>>::new(Rectangle::new(0, 0, 100, 100));
    let data1 = String::from("item1");
    let item1 = Item::new(Point::new(10, 10), &data1);
    assert!(q1.contains(&item1));

    let data2 = String::from("item2");
    let item2 = Item::new(Point::new(-10, -10), &data2);
    assert!(!q1.contains(&item2));
}

#[test]
fn test_contains_() {
    let q1 = Quadtree::<Item<String>>::new(Rectangle::new(0, 0, 100, 100));
    assert!(q1._contains(&Point::new(10, 10), &Rectangle::new(0, 0, 100, 100)));
    assert!(q1._contains(&Point::new(100, 100), &Rectangle::new(0, 0, 100, 100)));
    assert!(!q1._contains(&Point::new(101, 100), &Rectangle::new(0, 0, 100, 100)));
    assert!(!q1._contains(&Point::new(100, 101), &Rectangle::new(0, 0, 100, 100)));
    assert!(!q1._contains(&Point::new(101, 101), &Rectangle::new(0, 0, 100, 100)));
    assert!(!q1._contains(&Point::new(10, 10), &Rectangle::new(100, 100, 100, 100)));
    assert!(q1._contains(&Point::new(110, 10), &Rectangle::new(100, 0, 100, 100)));
    assert!(q1._contains(&Point::new(110, 110), &Rectangle::new(100, 100, 100, 100)));
    assert!(!q1._contains(&Point::new(110, 110), &Rectangle::new(0, 0, 100, 100)));
    assert!(q1._contains(&Point::new(10, 110), &Rectangle::new(0, 100, 100, 100)));
    assert!(q1._contains(
        &Point::new(100, 100),
        &Rectangle::new(100 - 3, 100 - 3, 2 * 3, 2 * 3)
    ));
    assert!(!q1._contains(
        &Point::new(150, 150),
        &Rectangle::new(100 - 3, 100 - 3, 2 * 3, 2 * 3)
    ));
    assert!(!q1._contains(
        &Point::new(152, 152),
        &Rectangle::new(100 - 3, 100 - 3, 2 * 3, 2 * 3)
    ));
}

#[test]
fn test_intersects() {
    let q1 = Quadtree::<Item<String>>::new(Rectangle::new(0, 0, 100, 100));
    assert!(q1.intersects(&Rectangle::new(5, 5, 50, 50), &Rectangle::new(20, 10, 10, 10)));
    assert!(q1.intersects(&Rectangle::new(5, 5, 50, 50), &Rectangle::new(5, 5, 50, 50)));
    assert!(!q1.intersects(&Rectangle::new(5, 5, 50, 50), &Rectangle::new(55, 55, 50, 50)));
}

#[test]
fn test_subdivide() {
    let q1 = Quadtree::<Item<String>>::new(Rectangle::new(0, 0, 100, 100));
    let children = q1.subdivide();
    let quadrants = [
        &children.top_left,
        &children.top_right,
        &children.bottom_right,
        &children.bottom_left,
    ];
    assert_eq!(quadrants.len(), 4);

    let north_east = quadrants[0];
    let north_east_pos = (north_east.x, north_east.y, north_east.width, north_east.height);
    assert_eq!(north_east.options.max_items, 20);
    assert_eq!(north_east.options.max_depth, 3);
    assert_eq!(north_east.options.depth, 1);
    assert_eq!(north_east_pos, (0, 0, 50, 50));

    let north_west = quadrants[1];
    let north_west_pos = (north_west.x, north_west.y, north_west.width, north_west.height);
    assert_eq!(north_west.options.max_items, 20);
    assert_eq!(north_west.options.max_depth, 3);
    assert_eq!(north_west.options.depth, 1);
    assert_eq!(north_west_pos, (50, 0, 50, 50));

    let south_west = quadrants[2];
    let south_west_pos = (south_west.x, south_west.y, south_west.width, south_west.height);
    assert_eq!(south_west.options.max_items, 20);
    assert_eq!(south_west.options.max_depth, 3);
    assert_eq!(south_west.options.depth, 1);
    assert_eq!(south_west_pos, (50, 50, 50, 50));

    let south_east = quadrants[3];
    let south_east_pos = (south_east.x, south_east.y, south_east.width, south_east.height);
    assert_eq!(south_east.options.max_items, 20);
    assert_eq!(south_east.options.max_depth, 3);
    assert_eq!(south_east.options.depth, 1);
    assert_eq!(south_east_pos, (0, 50, 50, 50));
}

#[test]
fn test_put_and_subdivide() {
    let entity = ();

    let mut qt = Quadtree::with_options(
        Rectangle::new(0, 0, 200, 200),
        Options { max_items: 1, ..Default::default() },
    );
    qt.put(Item::new(Point::new(10, 10), &entity));
    qt.put(Item::new(Point::new(110, 10), &entity));
    qt.put(Item::new(Point::new(110, 110), &entity));
    qt.put(Item::new(Point::new(10, 110), &entity));
    match qt.children {
        Some(ref ch) => {
            let c1 = &ch.top_left;
            let c2 = &ch.top_right;
            let c3 = &ch.bottom_right;
            let c4 = &ch.bottom_left;

            assert_eq!(c1.x, 0);
            assert_eq!(c1.y, 0);
            assert_eq!(c1.width, 100);
            assert_eq!(c1.height, 100);
            assert_eq!(c1.options.max_items, 1);
            assert_eq!(c1.options.max_depth, 3);
            assert_eq!(c1.options.depth, 1);
            assert_eq!(c1.items.len(), 1);
            assert_eq!(c1.items[0].point, Point::new(10, 10));
            assert!(c1.children.is_none());

            assert_eq!(c2.x, 100);
            assert_eq!(c2.y, 0);
            assert_eq!(c2.width, 100);
            assert_eq!(c2.height, 100);
            assert_eq!(c2.options.max_items, 1);
            assert_eq!(c2.options.max_depth, 3);
            assert_eq!(c2.options.depth, 1);
            assert_eq!(c2.items.len(), 1);
            assert_eq!(c2.items[0].point, Point::new(110, 10));
            assert!(c2.children.is_none());

            assert_eq!(c3.x, 100);
            assert_eq!(c3.y, 100);
            assert_eq!(c3.width, 100);
            assert_eq!(c3.height, 100);
            assert_eq!(c3.options.max_items, 1);
            assert_eq!(c3.options.max_depth, 3);
            assert_eq!(c3.options.depth, 1);
            assert_eq!(c3.items.len(), 1);
            assert_eq!(c3.items[0].point, Point::new(110, 110));
            assert!(c3.children.is_none());

            assert_eq!(c4.x, 0);
            assert_eq!(c4.y, 100);
            assert_eq!(c4.width, 100);
            assert_eq!(c4.height, 100);
            assert_eq!(c4.options.max_items, 1);
            assert_eq!(c4.options.max_depth, 3);
            assert_eq!(c4.options.depth, 1);
            assert_eq!(c4.items.len(), 1);
            assert_eq!(c4.items[0].point, Point::new(10, 110));
            assert!(c4.children.is_none());
        }
        _ => panic!(),
    }
}

#[test]
fn test_bounds() {
    let q1 = Quadtree::<Item<String>>::new(Rectangle::new(0, 0, 100, 100));
    let bounds = q1.bounds();
    assert_eq!((bounds.x, bounds.y, bounds.width, bounds.height), (0, 0, 100, 100));
}

#[test]
fn test_it_works() {
    let entity1 = Entity::new(1, String::from("nickname1"));
    let entity2 = Entity::new(2, String::from("nickname2"));
    let entity3 = Entity::new(3, String::from("nickname3"));

    let mut qt = Quadtree::new(Rectangle::new(0, 0, 100, 100));
    qt.put(Item::new(Point::new(10, 10), &entity1));
    qt.put(Item::new(Point::new(15, 15), &entity2));
    qt.put(Item::new(Point::new(20, 20), &entity3));

    let items = qt.query(Rectangle::new(5, 5, 10, 10));
    assert!(items.len() == 2);
    assert_eq!(items[0].data().id, 1);
    assert_eq!(items[0].data().nickname, String::from("nickname1"));
    assert_eq!(items[1].data().id, 2);
    assert_eq!(items[1].data().nickname, String::from("nickname2"));
}

#[test]
fn test_query() {
    let entity = ();

    let mut qt = Quadtree::with_options(
        Rectangle::new(0, 0, 200, 200),
        Options { max_items: 1, ..Default::default() },
    );
    qt.put(Item::new(Point::new(10, 10), &entity));
    qt.put(Item::new(Point::new(110, 10), &entity));
    qt.put(Item::new(Point::new(110, 110), &entity));
    qt.put(Item::new(Point::new(10, 110), &entity));

    let items1 = qt.query(Rectangle::new(0, 0, 200, 200));
    let points1: Vec<Point> = items1.iter().map(|&it| it.position()).collect();
    assert_eq!(items1.len(), 4);
    assert!(points1.contains(&Point::new(10, 10)));
    assert!(points1.contains(&Point::new(110, 10)));
    assert!(points1.contains(&Point::new(110, 110)));
    assert!(points1.contains(&Point::new(10, 110)));

    let items2 = qt.query(Rectangle::new(10, 0, 20, 20));
    let points2: Vec<Point> = items2.iter().map(|&it| it.position()).collect();
    assert_eq!(items2.len(), 1);
    assert!(points2.contains(&Point::new(10, 10)));

    let items3 = qt.query(Rectangle::new(0, 0, 200, 100));
    let points3: Vec<Point> = items3.iter().map(|&it| it.position()).collect();
    assert_eq!(items3.len(), 2);
    assert!(points3.contains(&Point::new(10, 10)));
    assert!(points3.contains(&Point::new(110, 10)));

    let items4 = qt.query(Rectangle::new(0, 100, 200, 100));
    let points4: Vec<Point> = items4.iter().map(|&it| it.position()).collect();
    assert_eq!(items4.len(), 2);
    assert!(points4.contains(&Point::new(110, 110)));
    assert!(points4.contains(&Point::new(10, 110)));

    let items5 = qt.query(Rectangle::new(200, 200, 200, 200));
    assert_eq!(items5.len(), 0);

    let items6 = qt.query(Rectangle::new(0, 0, 0, 0));
    assert_eq!(items6.len(), 0);

    let items7 = qt.query(Rectangle::new(100, 100, 100, 100));
    let points7: Vec<Point> = items7.iter().map(|&it| it.position()).collect();
    assert_eq!(items7.len(), 1);
    assert!(points7.contains(&Point::new(110, 110)));
}
