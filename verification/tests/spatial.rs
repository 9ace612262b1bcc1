// Tests for the k-d spatial index: build completeness, nearest
// neighbor against brute force, and greedy pairing.

use advent_puzzles::day08::{Day08, Point};
use advent_puzzles::kd_tree::{greedy_pairs, KdNode, KdTree, LeafNode};

fn collect_points(node: &KdNode, out: &mut Vec<Point>) {
    match node {
        KdNode::Leaf(leaf) => {
            for p in leaf.points.iter() {
                out.push(*p);
            }
        }
        KdNode::Split(s) => {
            collect_points(&s.left, out);
            collect_points(&s.right, out);
        }
    }
}

fn sample_points() -> Vec<Point> {
    vec![
        Point::new(0, 0, 0),
        Point::new(10, 0, 0),
        Point::new(0, 10, 0),
        Point::new(0, 0, 10),
        Point::new(3, 4, 0),
        Point::new(-5, 2, 8),
        Point::new(7, 7, 7),
        Point::new(10, 0, 0), // duplicate coordinates on purpose
    ]
}

#[test]
fn build_keeps_every_point() {
    let points = sample_points();
    let tree = KdTree::new(points.clone(), 1);
    let mut recovered = Vec::new();
    collect_points(&tree.root, &mut recovered);
    assert_eq!(recovered.len(), points.len());
    // multiset equality via sorting
    let key = |p: &Point| (p.x, p.y, p.z);
    let mut a: Vec<_> = recovered.iter().map(key).collect();
    let mut b: Vec<_> = points.iter().map(key).collect();
    a.sort();
    b.sort();
    assert_eq!(a, b);
}

#[test]
fn build_with_larger_leaves() {
    let points = sample_points();
    for leaf_size in 1..5 {
        let tree = KdTree::new(points.clone(), leaf_size);
        let mut recovered = Vec::new();
        collect_points(&tree.root, &mut recovered);
        assert_eq!(recovered.len(), points.len());
    }
}

fn brute_nearest(points: &[Point], target: &Point, excludes: &[Point]) -> Option<i64> {
    points
        .iter()
        .filter(|p| !excludes.contains(p))
        .map(|p| Day08::squared_distance(p, target))
        .min()
}

#[test]
fn nearest_matches_brute_force() {
    let points = sample_points();
    let tree = KdTree::new(points.clone(), 2);
    let targets = vec![
        Point::new(1, 1, 1),
        Point::new(9, 1, 0),
        Point::new(-4, 3, 9),
        Point::new(100, 100, 100),
    ];
    for t in targets.iter() {
        for excl_len in 0..3 {
            let excludes: Vec<Point> = points[..excl_len].to_vec();
            let got = tree.nearest_neighbor_search(t, &excludes);
            let want = brute_nearest(&points, t, &excludes);
            match (got, want) {
                (Some(p), Some(d)) => {
                    assert_eq!(Day08::squared_distance(&p, t), d);
                    assert!(!excludes.contains(&p));
                }
                (None, None) => {}
                _ => panic!("tree and brute force disagree"),
            }
        }
    }
}

#[test]
fn nearest_with_everything_excluded() {
    let points = vec![Point::new(1, 2, 3), Point::new(4, 5, 6)];
    let tree = KdTree::new(points.clone(), 1);
    let all: Vec<Point> = points.clone();
    assert_eq!(tree.nearest_neighbor_search(&Point::new(0, 0, 0), &all), None);
}

#[test]
fn nearest_respects_exclusion() {
    let points = vec![Point::new(0, 0, 0), Point::new(0, 0, 2), Point::new(0, 0, 5)];
    let tree = KdTree::new(points.clone(), 1);
    let target = Point::new(0, 0, 0);
    // the target itself is present; excluding it yields the next point
    let nearest = tree
        .nearest_neighbor_search(&target, &vec![Point::new(0, 0, 0)])
        .unwrap();
    assert_eq!(nearest, Point::new(0, 0, 2));
}

#[test]
fn greedy_pairs_scenario() {
    // Two tight pairs far apart: the first round pairs the closest
    // pair, the second round the other; afterwards each point may
    // pair again only with a new partner.
    let points = vec![
        Point::new(0, 0, 0),
        Point::new(0, 0, 1),
        Point::new(100, 0, 0),
        Point::new(100, 0, 2),
    ];
    let pairs = greedy_pairs(&points, 2, 1);
    assert_eq!(pairs.len(), 2);
    let d0 = Day08::squared_distance(&pairs[0].0, &pairs[0].1);
    let d1 = Day08::squared_distance(&pairs[1].0, &pairs[1].1);
    assert_eq!(d0, 1);
    assert_eq!(d1, 4);
}

#[test]
fn greedy_pairs_stops_when_exhausted() {
    let points = vec![Point::new(0, 0, 0), Point::new(0, 0, 3)];
    // only one mutual pair is possible, then both are excluded
    let pairs = greedy_pairs(&points, 10, 1);
    assert_eq!(pairs.len(), 1);
    let empty = greedy_pairs(&Vec::new(), 10, 1);
    assert_eq!(empty.len(), 0);
}

#[test]
fn leaf_node_is_public() {
    let leaf = KdNode::Leaf(LeafNode { points: vec![Point::new(1, 1, 1)] });
    match leaf {
        KdNode::Leaf(l) => assert_eq!(l.points.len(), 1),
        KdNode::Split(_) => panic!("expected a leaf"),
    }
}
