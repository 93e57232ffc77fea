use oxel::contour::bits_to_paths;
use oxel::simplify::Pt;

fn pts(v: &[(i64, i64)]) -> Vec<Pt> {
    v.iter().map(|&(x, y)| Pt { x, y }).collect()
}

/// Twice the signed area of a closed path (positive when clockwise with y down).
fn twice_area(p: &[Pt]) -> i64 {
    let n = p.len();
    (0..n).map(|i| p[i].x * p[(i + 1) % n].y - p[(i + 1) % n].x * p[i].y).sum()
}

/// Whether the centre of pixel `(x, y)` lies inside an odd number of the paths.
fn inside_even_odd(paths: &[Vec<Pt>], x: i64, y: i64) -> bool {
    let (cx2, cy2) = (2 * x + 1, 2 * y + 1);
    let mut inside = false;
    for p in paths {
        let n = p.len();
        for i in 0..n {
            let (a, b) = (p[i], p[(i + 1) % n]);
            if a.x == b.x && 2 * a.x > cx2 {
                let (lo, hi) = (a.y.min(b.y), a.y.max(b.y));
                if 2 * lo < cy2 && cy2 < 2 * hi {
                    inside = !inside;
                }
            }
        }
    }
    inside
}

fn check_image(w: usize, h: usize, bits: &[i8]) {
    let paths = bits_to_paths(w, h, &bits.to_vec());
    let mut edges = std::collections::HashSet::new();
    for p in &paths {
        assert!(p.len() >= 4);
        for i in 0..p.len() {
            let (a, b) = (p[i], p[(i + 1) % p.len()]);
            assert_eq!((a.x - b.x).abs() + (a.y - b.y).abs(), 1);
            assert!(a.x >= 0 && a.x <= w as i64 && a.y >= 0 && a.y <= h as i64);
            assert!(edges.insert((a.x, a.y, b.x, b.y)));
        }
    }
    for y in 0..h as i64 {
        for x in 0..w as i64 {
            let filled = bits[y as usize * w + x as usize] == 1;
            assert_eq!(inside_even_odd(&paths, x, y), filled);
        }
    }
}

#[test]
fn single_pixel_outline() {
    let paths = bits_to_paths(1, 1, &vec![1]);
    assert_eq!(paths, vec![pts(&[(0, 0), (1, 0), (1, 1), (0, 1)])]);
    assert!(twice_area(&paths[0]) > 0);
}

#[test]
fn square_outline() {
    let paths = bits_to_paths(2, 2, &vec![1, 1, 1, 1]);
    assert_eq!(paths, vec![pts(&[(0, 0), (1, 0), (2, 0), (2, 1), (2, 2), (1, 2), (0, 2), (0, 1)])]);
}

#[test]
fn ring_has_outline_and_hole() {
    let paths = bits_to_paths(3, 3, &vec![1, 1, 1, 1, 0, 1, 1, 1, 1]);
    assert_eq!(
        paths,
        vec![
            pts(&[(0, 0), (1, 0), (2, 0), (3, 0), (3, 1), (3, 2), (3, 3), (2, 3), (1, 3), (0, 3), (0, 2), (0, 1)]),
            pts(&[(2, 1), (1, 1), (1, 2), (2, 2)]),
        ]
    );
    assert!(twice_area(&paths[0]) > 0);
    assert!(twice_area(&paths[1]) < 0);
}

#[test]
fn diagonal_pixels_get_separate_outlines() {
    let paths = bits_to_paths(2, 2, &vec![1, 0, 0, 1]);
    assert_eq!(paths, vec![pts(&[(0, 0), (1, 0), (1, 1), (0, 1)]), pts(&[(1, 1), (2, 1), (2, 2), (1, 2)])]);
}

#[test]
fn longer_buffer_is_accepted() {
    let paths = bits_to_paths(1, 1, &vec![1, 1, 1]);
    assert_eq!(paths, vec![pts(&[(0, 0), (1, 0), (1, 1), (0, 1)])]);
}

#[test]
fn empty_image_has_no_paths() {
    assert!(bits_to_paths(4, 3, &vec![0; 12]).is_empty());
}

#[test]
fn paths_fill_back_to_the_image() {
    let w = 9;
    let h = 7;
    let bits: Vec<i8> = (0..w * h).map(|i| if (i * 7 + i / 3) % 5 < 3 { 1 } else { 0 }).collect();
    check_image(w, h, &bits);
    let ring: Vec<i8> = (0..25).map(|i| if i % 5 == 0 || i % 5 == 4 || i / 5 == 0 || i / 5 == 4 { 1 } else { 0 }).collect();
    check_image(5, 5, &ring);
}
