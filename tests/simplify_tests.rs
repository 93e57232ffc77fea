use oxel::simplify::{douglas_peucker, Pt};

fn pts(v: &[(i64, i64)]) -> Vec<Pt> {
    v.iter().map(|&(x, y)| Pt { x, y }).collect()
}

#[test]
fn bump_above_tolerance_is_kept() {
    let p = pts(&[(0, 0), (1, 1), (2, 0)]);
    assert_eq!(douglas_peucker(&p, 1, 2), p);
}

#[test]
fn bump_below_tolerance_is_dropped() {
    let p = pts(&[(0, 0), (1, 1), (2, 0)]);
    assert_eq!(douglas_peucker(&p, 2, 1), pts(&[(0, 0), (2, 0)]));
}

#[test]
fn deviation_equal_to_tolerance_is_dropped() {
    let p = pts(&[(0, 0), (1, 1), (2, 0)]);
    assert_eq!(douglas_peucker(&p, 1, 1), pts(&[(0, 0), (2, 0)]));
}

#[test]
fn collinear_points_collapse() {
    let p = pts(&[(0, 0), (1, 0), (2, 0), (3, 0)]);
    assert_eq!(douglas_peucker(&p, 0, 1), pts(&[(0, 0), (3, 0)]));
}

#[test]
fn closed_square_is_kept() {
    let p = pts(&[(0, 0), (4, 0), (4, 4), (0, 0)]);
    assert_eq!(douglas_peucker(&p, 1, 1), p);
}

#[test]
fn split_at_farthest_point() {
    let p = pts(&[(0, 0), (1, 0), (2, 3), (3, 0), (4, 0), (5, 0), (6, 0)]);
    assert_eq!(douglas_peucker(&p, 1, 1), pts(&[(0, 0), (2, 3), (3, 0), (6, 0)]));
}

#[test]
fn short_polylines_come_back() {
    let p = pts(&[(3, 4), (5, 6)]);
    assert_eq!(douglas_peucker(&p, 1, 1), p);
    assert!(douglas_peucker(&Vec::new(), 1, 1).is_empty());
}
