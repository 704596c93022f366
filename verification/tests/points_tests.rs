use ddhpsi::group::Point;
use ddhpsi::points::{cmult_vec, generate_points, intersect_size};

fn scalar_bytes(x: u8) -> [u8; 32] {
    let mut b = [0u8; 32];
    b[0] = x;
    b
}

#[test]
fn generate_points_hashes_little_endian_indices() {
    let points = generate_points(3);
    assert_eq!(points.len(), 3);
    for (i, p) in points.iter().enumerate() {
        let expected = Point::hash_from_bytes(&(i as u32).to_le_bytes());
        assert_eq!(p.to_bytes(), expected.to_bytes());
    }
    assert_eq!(
        points[2].to_bytes(),
        Point::hash_from_bytes(&[2, 0, 0, 0]).to_bytes()
    );
}

#[test]
fn generate_points_empty() {
    assert!(generate_points(0).is_empty());
}

#[test]
fn generate_points_elements_differ() {
    let points = generate_points(4);
    assert_ne!(points[0].to_bytes(), points[1].to_bytes());
    assert_ne!(points[2].to_bytes(), points[3].to_bytes());
}

#[test]
fn cmult_vec_multiplies_each_in_order() {
    let points = generate_points(4);
    let c = scalar_bytes(9);
    let out = cmult_vec(points.clone(), c);
    assert_eq!(out.len(), 4);
    for i in 0..4 {
        assert_eq!(out[i].to_bytes(), points[i].mul(&c).to_bytes());
        assert_ne!(out[i].to_bytes(), points[i].to_bytes());
    }
}

#[test]
fn cmult_vec_empty() {
    assert!(cmult_vec(Vec::new(), scalar_bytes(3)).is_empty());
}

#[test]
fn intersect_size_counts_common_elements() {
    let a = generate_points(5);
    let b: Vec<Point> = generate_points(8)[3..8].to_vec();
    assert_eq!(intersect_size(a, b), 2);
}

#[test]
fn intersect_size_counts_duplicates_once() {
    let p = generate_points(2);
    let a = vec![p[0], p[0], p[1], p[0]];
    let b = vec![p[0], p[0]];
    assert_eq!(intersect_size(a, b), 1);
}

#[test]
fn intersect_size_of_disjoint_and_empty_sets() {
    let p = generate_points(4);
    assert_eq!(intersect_size(p[0..2].to_vec(), p[2..4].to_vec()), 0);
    assert_eq!(intersect_size(Vec::new(), p.clone()), 0);
    assert_eq!(intersect_size(p.clone(), Vec::new()), 0);
}

#[test]
fn intersect_size_is_symmetric() {
    let a = generate_points(6);
    let b: Vec<Point> = generate_points(9)[4..9].to_vec();
    assert_eq!(intersect_size(a.clone(), b.clone()), intersect_size(b, a));
}

#[test]
fn intersect_size_is_bounded_by_both_sizes() {
    let a = generate_points(3);
    let b = generate_points(7);
    let n = intersect_size(a.clone(), b.clone());
    assert_eq!(n, 3);
    assert!(n <= a.len() && n <= b.len());
}

#[test]
fn intersect_size_ignores_order() {
    let a = generate_points(6);
    let mut reversed = a.clone();
    reversed.reverse();
    let b: Vec<Point> = generate_points(10)[2..10].to_vec();
    assert_eq!(intersect_size(a, b.clone()), intersect_size(reversed, b));
}

#[test]
fn masking_both_sides_keeps_common_elements() {
    // The two sets share exactly the overlapping indices; masking with a
    // then b on one side and with b then a on the other keeps them common.
    let a = scalar_bytes(5);
    let b = scalar_bytes(13);
    let client = generate_points(20);
    let server = generate_points(35);
    let client_ab = cmult_vec(cmult_vec(client, a), b);
    let server_ba = cmult_vec(cmult_vec(server, b), a);
    assert_eq!(intersect_size(client_ab, server_ba), 20);
}
