use kdtree::domain::Hyperplane;
use kdtree::domain::Hypersphere;
use kdtree::domain::NPoint;
use kdtree::domain::SpatialQueryStructure;
use kdtree::domain::VectorPointN;
use kdtree::spatial_trees::KdTree;

fn pt(coords: &[i64]) -> VectorPointN {
    VectorPointN { origin: coords.to_vec() }
}

fn sq_dist(a: &[i64], b: &[i64]) -> i64 {
    let mut acc: i64 = 0;
    for i in 0..a.len() {
        let d = a[i] - b[i];
        acc += d * d;
    }
    acc
}

#[test]
fn empty_tree_has_no_nearest() {
    let tree = KdTree::build(Vec::new());
    assert!(tree.find_nearest(&pt(&[7])).is_none());
    assert!(tree.get_points().is_empty());
    assert!(tree.splitting_hyperplane().is_none());
}

#[test]
fn single_point_3d() {
    let tree = KdTree::build(vec![pt(&[0, 0, 0])]);
    let nearest = tree.find_nearest(&pt(&[5, 5, 5])).unwrap();
    assert_eq!(nearest.origin, vec![0, 0, 0]);
}

#[test]
fn two_points_on_axis() {
    let tree = KdTree::build(vec![pt(&[0, 0, 0]), pt(&[10, 0, 0])]);
    let near_origin = tree.find_nearest(&pt(&[4, 0, 0])).unwrap();
    assert_eq!(near_origin.origin, vec![0, 0, 0]);
    let near_ten = tree.find_nearest(&pt(&[6, 0, 0])).unwrap();
    assert_eq!(near_ten.origin, vec![10, 0, 0]);
}

#[test]
fn five_collinear_points() {
    // five collinear points spaced ten apart; a query at 24 on the axis
    // lies between the second and third and is nearer the third
    let pts: Vec<VectorPointN> = (0..5i64).map(|i| pt(&[10 * i, 0, 0])).collect();
    let tree = KdTree::build(pts);
    let nearest = tree.find_nearest(&pt(&[24, 0, 0])).unwrap();
    assert_eq!(nearest.origin, vec![20, 0, 0]);
}

#[test]
fn root_plane_of_three_point_build() {
    // the root of a three-point build stores the median along dimension 0,
    // and its splitting hyperplane passes through it with normal along
    // dimension 0
    let tree = KdTree::build(vec![pt(&[3, 1, 0]), pt(&[1, 2, 0]), pt(&[2, 3, 0])]);
    let plane = tree.splitting_hyperplane().unwrap();
    assert_eq!(plane.origin, vec![2, 3, 0]);
    assert_eq!(plane.normal, vec![1, 0, 0]);
}

#[test]
fn enumeration_is_a_permutation() {
    let input = vec![
        vec![3, 1],
        vec![1, 2],
        vec![2, 0],
        vec![1, 2],
        vec![-4, 5],
        vec![0, 0],
    ];
    let tree = KdTree::build(input.iter().map(|c| pt(c)).collect());
    let mut output: Vec<Vec<i64>> = tree.get_points().into_iter().map(|p| p.origin).collect();
    assert_eq!(output.len(), input.len());
    let mut expected = input.clone();
    expected.sort();
    output.sort();
    assert_eq!(output, expected);
}

#[test]
fn nearest_matches_brute_force() {
    let input: Vec<Vec<i64>> = vec![
        vec![0, 0],
        vec![1, 100],
        vec![5, 5],
        vec![-7, 3],
        vec![12, -4],
        vec![2, 2],
        vec![2, 2],
    ];
    let tree = KdTree::build(input.iter().map(|c| pt(c)).collect());
    let queries: Vec<Vec<i64>> = vec![
        vec![2, 0],
        vec![0, 99],
        vec![-10, 0],
        vec![3, 3],
        vec![100, 100],
    ];
    for q in &queries {
        let nearest = tree.find_nearest(&pt(q)).unwrap();
        let best = input.iter().map(|p| sq_dist(p, q)).min().unwrap();
        assert_eq!(sq_dist(&nearest.origin, q), best);
    }
}

#[test]
fn nearest_in_far_subtree_is_found() {
    // the query lies on the right of the root's splitting plane while the
    // true nearest point lies on the left of it
    let tree = KdTree::build(vec![pt(&[0, 0]), pt(&[1, 100])]);
    let nearest = tree.find_nearest(&pt(&[2, 0])).unwrap();
    assert_eq!(nearest.origin, vec![0, 0]);
}

#[test]
fn closest_point_within_range_boundary_is_inclusive() {
    let tree = KdTree::build(vec![pt(&[3, 4])]);
    // the point is at squared distance 25 from the origin
    let hit = tree.find_closest_point_within_range(&pt(&[0, 0]), 25);
    assert_eq!(hit.unwrap().origin, vec![3, 4]);
    let miss = tree.find_closest_point_within_range(&pt(&[0, 0]), 24);
    assert!(miss.is_none());
}

#[test]
fn closest_point_of_nonempty_tree() {
    let tree = KdTree::build(vec![pt(&[4, 0]), pt(&[0, 9])]);
    let p = tree.find_closest_point(&pt(&[1, 1]));
    assert_eq!(p.origin, vec![4, 0]);
}

#[test]
fn k_nearest_in_ascending_order() {
    let pts: Vec<VectorPointN> = (0..5i64).map(|i| pt(&[10 * i, 0, 0])).collect();
    let tree = KdTree::build(pts);
    let three = tree.find_k_nearest_points(&pt(&[24, 0, 0]), 3);
    let coords: Vec<Vec<i64>> = three.into_iter().map(|p| p.origin).collect();
    assert_eq!(
        coords,
        vec![vec![20, 0, 0], vec![30, 0, 0], vec![10, 0, 0]]
    );
}

#[test]
fn k_nearest_with_large_k_returns_all() {
    let tree = KdTree::build(vec![pt(&[1]), pt(&[5]), pt(&[9])]);
    let all = tree.find_k_nearest_points(&pt(&[4]), 10);
    let coords: Vec<Vec<i64>> = all.into_iter().map(|p| p.origin).collect();
    assert_eq!(coords, vec![vec![5], vec![1], vec![9]]);
    let none = tree.find_k_nearest_points(&pt(&[4]), 0);
    assert!(none.is_empty());
}

#[test]
fn k_nearest_within_range_cuts_at_the_range() {
    let tree = KdTree::build(vec![pt(&[1]), pt(&[5]), pt(&[9]), pt(&[30])]);
    // from 4: distances squared are 9, 1, 25, 676
    let found = tree.find_k_nearest_points_within_range(&pt(&[4]), 10, 25);
    let coords: Vec<Vec<i64>> = found.into_iter().map(|p| p.origin).collect();
    assert_eq!(coords, vec![vec![5], vec![1], vec![9]]);
    let capped = tree.find_k_nearest_points_within_range(&pt(&[4]), 2, 25);
    let capped_coords: Vec<Vec<i64>> = capped.into_iter().map(|p| p.origin).collect();
    assert_eq!(capped_coords, vec![vec![5], vec![1]]);
}

#[test]
fn squared_distance_between_points() {
    let a = pt(&[1, 2, 3]);
    let b = pt(&[4, 6, 3]);
    assert_eq!(a.sq_distance_to(&b), 25);
    assert_eq!(b.sq_distance_to(&a), 25);
    assert_eq!(a.from_origin(), &vec![1, 2, 3]);
}

#[test]
fn plane_signed_distance() {
    let plane = Hyperplane { origin: vec![0, 0, 0], normal: vec![1, 0, 0] };
    assert_eq!(plane.distance_to_point(&pt(&[5, 1, 1])), 5);
    assert_eq!(plane.distance_to_point(&pt(&[-3, 7, 0])), -3);
}

#[test]
fn plane_sphere_intersection() {
    let plane = Hyperplane { origin: vec![0, 0, 0], normal: vec![1, 0, 0] };
    // the centre is at signed distance 3; a radius of 3 just touches
    let touching = Hypersphere { origin: vec![3, 0, 0], sq_radius: 9 };
    assert!(plane.intersects_hypersphere(&touching));
    let apart = Hypersphere { origin: vec![3, 0, 0], sq_radius: 4 };
    assert!(!plane.intersects_hypersphere(&apart));
    // a centre behind the plane has a non-positive signed distance
    let behind = Hypersphere { origin: vec![-5, 0, 0], sq_radius: 0 };
    assert!(plane.intersects_hypersphere(&behind));
}

#[test]
fn degenerate_all_equal_coordinates() {
    let tree = KdTree::build(vec![pt(&[2, 2]), pt(&[2, 2]), pt(&[2, 2])]);
    assert_eq!(tree.get_points().len(), 3);
    let nearest = tree.find_nearest(&pt(&[0, 0])).unwrap();
    assert_eq!(nearest.origin, vec![2, 2]);
}
