use cellular_textures::kdtree::{BuildError, KdTree};
use cellular_textures::point::{sqr_distance, Point};

fn mindist(tree: &KdTree, p: &Point) -> (f64, Point) {
    let (d2, q) = tree.nearest(p);
    ((d2 as f64).sqrt(), q)
}

fn find_nearest(p: Point, cells: &[Point]) -> (f64, Point) {
    let mut best = sqr_distance(&cells[0], &p);
    let mut min_pos = cells[0];
    for c in cells {
        let k = sqr_distance(c, &p);
        if k < best {
            best = k;
            min_pos = *c;
        }
    }
    ((best as f64).sqrt(), min_pos)
}

fn random_cells(seed: u64, n: usize) -> Vec<Point> {
    let rng = fastrand::Rng::with_seed(seed);
    let mut cells = Vec::new();
    for _ in 0..n {
        cells.push((rng.usize(0..1000), rng.usize(0..1000)));
    }
    cells
}

#[test]
fn test_build() {
    let a = vec![(5, 4), (2, 6), (13, 3), (3, 1), (10, 2), (8, 7)];
    let tree = KdTree::new(a).unwrap();
    println!("{:?}", tree);
    let (d, p) = mindist(&tree, &(9, 4));
    println!("{:?}", (d, p));
    assert_eq!(p, (10, 2));
    assert_eq!(tree.nearest(&(9, 4)), (5, (10, 2)));
    assert!((d - 2.2360679).abs() < 1e-6);
}

#[test]
fn test_build2() {
    let cells = random_cells(100, 1000);
    let tree = KdTree::new(cells.clone()).unwrap();
    for i in (0..1000).step_by(7) {
        for j in (0..1000).step_by(7) {
            let p = (i, j);
            let tree_dist = mindist(&tree, &p);
            let (brute_dist, minpos) = find_nearest(p, &cells);
            if tree_dist.0 != brute_dist {
                panic!("failed for {:?}. Correct pos: {:?}", p, minpos);
            }
        }
    }
}

#[test]
fn small_leaves_agree_with_brute_force() {
    let cells = random_cells(7, 300);
    let tree = KdTree::with_leaf_threshold(cells.clone(), 2).unwrap();
    for i in (0..1000).step_by(13) {
        for j in (0..1000).step_by(11) {
            let p = (i, j);
            let (d2, q) = tree.nearest(&p);
            assert_eq!(d2, sqr_distance(&q, &p));
            assert!(cells.contains(&q));
            let brute = cells.iter().map(|c| sqr_distance(c, &p)).min().unwrap();
            assert_eq!(d2, brute);
        }
    }
}

#[test]
fn repeated_queries_agree() {
    let cells = random_cells(3, 200);
    let tree = KdTree::new(cells).unwrap();
    for p in [(0, 0), (500, 500), (999, 1), (1234, 77)] {
        assert_eq!(tree.nearest(&p), tree.nearest(&p));
    }
}

#[test]
fn every_cell_is_at_distance_zero() {
    let cells = random_cells(11, 500);
    let tree = KdTree::new(cells.clone()).unwrap();
    for c in &cells {
        assert_eq!(tree.nearest(c).0, 0);
    }
}

#[test]
fn single_point_leaf() {
    let tree = KdTree::new(vec![(5, 5)]).unwrap();
    assert_eq!(tree.nearest(&(5, 5)), (0, (5, 5)));
    assert_eq!(tree.nearest(&(8, 9)), (25, (5, 5)));
    assert_eq!(mindist(&tree, &(0, 5)).0, 5.0);
}

#[test]
fn single_point_branch() {
    let tree = KdTree::with_leaf_threshold(vec![(5, 5)], 1).unwrap();
    assert_eq!(tree.nearest(&(5, 5)), (0, (5, 5)));
    assert_eq!(tree.nearest(&(2, 1)), (25, (5, 5)));
    assert_eq!(tree.nearest(&(1000, 5)), (995 * 995, (5, 5)));
}

#[test]
fn duplicate_points() {
    let cells = vec![(3, 3); 20];
    let tree = KdTree::new(cells).unwrap();
    assert_eq!(tree.nearest(&(3, 3)), (0, (3, 3)));
    assert_eq!(tree.nearest(&(6, 7)), (25, (3, 3)));
    assert_eq!(mindist(&tree, &(0, 3)).0, 3.0);
    let deep = KdTree::with_leaf_threshold(vec![(3, 3); 20], 1).unwrap();
    assert_eq!(deep.nearest(&(3, 3)), (0, (3, 3)));
    assert_eq!(deep.nearest(&(4, 4)), (2, (3, 3)));
}

#[test]
fn empty_input_is_rejected() {
    assert_eq!(KdTree::new(Vec::new()).unwrap_err(), BuildError::InvalidInput);
    assert_eq!(
        KdTree::with_leaf_threshold(Vec::new(), 4).unwrap_err(),
        BuildError::InvalidInput
    );
}

#[test]
fn query_outside_the_points_bounding_box() {
    let tree = KdTree::new(vec![(10, 10), (20, 20), (30, 10)]).unwrap();
    assert_eq!(tree.nearest(&(100, 0)), (70 * 70 + 100, (30, 10)));
    assert_eq!(tree.nearest(&(0, 0)), (200, (10, 10)));
}

#[test]
fn equal_distances_keep_the_pivot() {
    // (1, 0) is the pivot on x; (0, 1) and (2, 1) are at the same distance
    // as the pivot from (1, 1), and the pivot is kept.
    let tree = KdTree::with_leaf_threshold(vec![(0, 1), (1, 0), (2, 1)], 2).unwrap();
    assert_eq!(tree.nearest(&(1, 1)), (1, (1, 0)));
    // Within a leaf the first point in stored order wins a tie.
    let leaf = KdTree::new(vec![(2, 0), (0, 0)]).unwrap();
    assert_eq!(leaf.nearest(&(1, 0)), (1, (2, 0)));
}
