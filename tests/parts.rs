use cellular_textures::dims::parse_pair;
use cellular_textures::kdtree::KdTree;
use cellular_textures::point::{gap, is_grid_point, sqr_distance};
use cellular_textures::split::{sort_on_axis, split_at_median};

#[test]
fn squared_distance_values() {
    assert_eq!(sqr_distance(&(0, 0), &(3, 4)), 25);
    assert_eq!(sqr_distance(&(3, 4), &(0, 0)), 25);
    assert_eq!(sqr_distance(&(7, 7), &(7, 7)), 0);
    let far = (1usize << 62) as u128;
    assert_eq!(sqr_distance(&(0, 0), &(1 << 62, 1 << 62)), 2 * far * far);
}

#[test]
fn coordinate_gap() {
    assert_eq!(gap(3, 10), 7);
    assert_eq!(gap(10, 3), 7);
    assert_eq!(gap(4, 4), 0);
}

#[test]
fn grid_bound() {
    assert!(is_grid_point(&(0, 0)));
    assert!(is_grid_point(&(1 << 62, 5)));
    assert!(!is_grid_point(&(usize::MAX, 0)));
    assert!(!is_grid_point(&(0, 1 << 63)));
}

#[test]
fn sort_is_stable() {
    let xs = vec![(3, 1), (1, 2), (3, 0), (1, 9), (2, 5)];
    assert_eq!(
        sort_on_axis(&xs, true),
        vec![(1, 2), (1, 9), (2, 5), (3, 1), (3, 0)]
    );
    assert_eq!(
        sort_on_axis(&xs, false),
        vec![(3, 0), (3, 1), (1, 2), (2, 5), (1, 9)]
    );
}

#[test]
fn median_split() {
    let xs = vec![(5, 4), (2, 6), (13, 3), (3, 1), (10, 2), (8, 7)];
    let (left, right, median) = split_at_median(xs.clone(), true);
    assert_eq!(left, vec![(2, 6), (3, 1)]);
    assert_eq!(median, (5, 4));
    assert_eq!(right, vec![(8, 7), (10, 2), (13, 3)]);
    let (left, right, median) = split_at_median(xs, false);
    assert_eq!(left, vec![(3, 1), (10, 2)]);
    assert_eq!(median, (13, 3));
    assert_eq!(right, vec![(5, 4), (2, 6), (8, 7)]);
    let (left, right, median) = split_at_median(vec![(1, 1)], true);
    assert!(left.is_empty() && right.is_empty());
    assert_eq!(median, (1, 1));
}

#[test]
fn pairs_are_parsed() {
    assert_eq!(parse_pair("640x480", b'x'), Some((640, 480)));
    assert_eq!(parse_pair("+3x007", b'x'), Some((3, 7)));
    assert_eq!(parse_pair("1x2x3", b'x'), None);
    assert_eq!(parse_pair("640", b'x'), None);
    assert_eq!(parse_pair("x480", b'x'), None);
    assert_eq!(parse_pair("640x", b'x'), None);
    assert_eq!(parse_pair("-1x2", b'x'), None);
    assert_eq!(parse_pair("+x2", b'x'), None);
    assert_eq!(parse_pair("1 x2", b'x'), None);
    assert_eq!(parse_pair("18446744073709551615x0", b'x'), Some((usize::MAX, 0)));
    assert_eq!(parse_pair("18446744073709551616x0", b'x'), None);
    assert_eq!(parse_pair("3,4", b','), Some((3, 4)));
}

#[test]
fn mirrored_distance() {
    let tree = KdTree::new(vec![(1, 1)]).unwrap();
    // (9, 9) mirrors to (1, 1) within a 10 by 10 grid.
    assert_eq!(tree.nearest_mirrored(&(9, 9), &(10, 10)), 0);
    assert_eq!(tree.nearest_mirrored(&(5, 5), &(10, 10)), 32);
    assert_eq!(tree.nearest_mirrored(&(8, 2), &(10, 10)), 2);
}

#[test]
fn field_layout() {
    let tree = KdTree::new(vec![(0, 0), (3, 1)]).unwrap();
    let field = tree.distance_field(&(4, 2));
    assert_eq!(field.len(), 4);
    for (i, column) in field.iter().enumerate() {
        assert_eq!(column.len(), 2);
        for (j, d) in column.iter().enumerate() {
            assert_eq!(*d, tree.nearest_mirrored(&(i, j), &(4, 2)));
        }
    }
    assert_eq!(field[0][0], 0);
    assert_eq!(field[2][1], 1);
}
