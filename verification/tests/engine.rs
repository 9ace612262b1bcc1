// Scenario tests for the clustering engine: union-find, frontier,
// bounded and full-connectivity queries.

use advent_puzzles::day08::{CandidateEdge, Day08, DistanceFrontier, Point, UnionFind};

#[test]
fn bounded_query_one_merge() {
    // Three points; one merge joins the closest pair at distance 1,
    // leaving components {2, 1}; the padded top-three product is 2.
    let points = vec![Point::new(0, 0, 0), Point::new(0, 0, 1), Point::new(0, 0, 10)];
    assert_eq!(Day08::bounded_query(&points, 1), 2);
}

#[test]
fn bounded_query_exhausts_frontier() {
    let points = vec![Point::new(0, 0, 0), Point::new(0, 0, 1), Point::new(0, 0, 10)];
    // Budget beyond the frontier size connects everything: one
    // component of three.
    assert_eq!(Day08::bounded_query(&points, 1000), 3);
}

#[test]
fn bottleneck_of_collinear_points() {
    // Equally spaced collinear points: both short edges have distance
    // 25; the first union does not connect the set, the second does,
    // so the bottleneck is the tie-broken second edge (1, 2).
    let points = vec![Point::new(0, 0, 0), Point::new(0, 0, 5), Point::new(0, 0, 10)];
    assert_eq!(Day08::full_connectivity_query(&points), Some((1, 2)));
}

#[test]
fn single_point_queries() {
    // A single point is already connected: no bottleneck edge, and
    // the bounded query reports the lone component padded with ones.
    let points = vec![Point::new(7, 7, 7)];
    assert_eq!(Day08::full_connectivity_query(&points), None);
    assert_eq!(Day08::bounded_query(&points, 1000), 1);
}

#[test]
fn empty_point_set_queries() {
    let points: Vec<Point> = vec![];
    assert_eq!(Day08::full_connectivity_query(&points), None);
    assert_eq!(Day08::bounded_query(&points, 5), 1);
}

#[test]
fn union_find_basics() {
    let mut uf = UnionFind::new(5);
    // find is idempotent
    let r = uf.find(3);
    let r2 = uf.find(r);
    assert_eq!(r, r2);
    uf.union(0, 1);
    assert_eq!(uf.find(0), uf.find(1));
    assert_ne!(uf.find(0), uf.find(2));
    assert!(!uf.are_all_same_root());
    uf.union(1, 2);
    uf.union(3, 4);
    assert!(!uf.are_all_same_root());
    uf.union(0, 4);
    assert!(uf.are_all_same_root());
}

#[test]
fn union_twice_is_idempotent() {
    let mut a = UnionFind::new(4);
    a.union(1, 2);
    a.union(1, 2);
    let mut b = UnionFind::new(4);
    b.union(1, 2);
    for i in 0..4 {
        let (ra, rb) = (a.find(i), b.find(i));
        assert_eq!(ra, rb);
    }
}

#[test]
fn frontier_pops_in_order() {
    let points = vec![
        Point::new(0, 0, 0),
        Point::new(0, 0, 3),
        Point::new(0, 0, 1),
        Point::new(0, 0, 7),
    ];
    let mut fr = Day08::build_frontier(&points);
    let mut prev: Option<CandidateEdge> = None;
    let mut count = 0;
    while let Some(e) = fr.pop() {
        if let Some(p) = prev {
            let le = p.distance < e.distance
                || (p.distance == e.distance && (p.i < e.i || (p.i == e.i && p.j <= e.j)));
            assert!(le, "pops must be non-decreasing in (distance, i, j)");
        }
        prev = Some(e);
        count += 1;
    }
    assert_eq!(count, 6);
    assert!(fr.is_exhausted());
}

#[test]
fn frontier_first_edge_is_closest_pair() {
    let points = vec![Point::new(0, 0, 0), Point::new(0, 0, 5), Point::new(0, 0, 6)];
    let mut fr = Day08::build_frontier(&points);
    let first = fr.pop().unwrap();
    assert_eq!(first.distance, 1);
    assert_eq!((first.i, first.j), (1, 2));
}

#[test]
fn squared_distance_is_exact() {
    let a = Point::new(1, 2, 3);
    let b = Point::new(4, 6, 3);
    assert_eq!(Day08::squared_distance(&a, &b), 25);
    assert_eq!(Day08::squared_distance(&b, &a), 25);
    assert_eq!(Day08::squared_distance(&a, &a), 0);
}

#[test]
fn parse_points_roundtrip() {
    let input = "1,2,3\n4,5,6\n-7, 8 ,9".replace(" ", "");
    let pts = Day08::parse(&input).unwrap();
    assert_eq!(pts.len(), 3);
    assert_eq!(pts[0], Point::new(1, 2, 3));
    assert_eq!(pts[2], Point::new(-7, 8, 9));
    assert!(Day08::parse("1,2\n").is_none());
    assert!(Day08::parse("1,2,x").is_none());
    let empty = Day08::parse("").unwrap();
    assert_eq!(empty.len(), 0);
}

#[test]
fn part_drivers_on_text() {
    let input = "0,0,0\n0,0,1\n0,0,10";
    let d = Day08;
    // the default budget of 1000 merges connects all three points
    assert_eq!(d.part1(input).unwrap(), "3");
    // bottleneck pair is (1, 2): x-product of points 1 and 2 is 0.
    assert_eq!(d.part2(input).unwrap(), "0");
    let input2 = "2,0,0\n3,0,5\n5,0,10";
    // bottleneck joins points 1 and 2: 3 * 5 = 15.
    assert_eq!(d.part2(input2).unwrap(), "15");
}
