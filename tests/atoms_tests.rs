use oxel::atoms::{bounding_box, center_atoms, Atom, BoundingBox};
use oxel::grid::Point3;

fn atom(x: i64, y: i64, z: i64, radius: i64) -> Atom {
    Atom { x, y, z, radius }
}

#[test]
fn bounding_box_spans_all_spheres() {
    let atoms = vec![atom(10, -5, 0, 2), atom(-4, 7, 3, 1)];
    let b = bounding_box(&atoms).unwrap();
    assert_eq!(
        b,
        BoundingBox { min: Point3 { x: -5, y: -7, z: -2 }, max: Point3 { x: 12, y: 8, z: 4 } }
    );
}

#[test]
fn bounding_box_of_nothing_is_none() {
    assert_eq!(bounding_box(&Vec::new()), None);
}

#[test]
fn bounding_box_min_not_above_max() {
    let atoms = vec![atom(3, 3, 3, 0), atom(-100, 50, 7, 9), atom(0, 0, 0, 40)];
    let b = bounding_box(&atoms).unwrap();
    assert!(b.min.x <= b.max.x && b.min.y <= b.max.y && b.min.z <= b.max.z);
}

#[test]
fn centering_moves_box_centre_to_origin() {
    let mut atoms = vec![atom(10, -5, 0, 2), atom(-4, 7, 3, 1)];
    let c = center_atoms(&mut atoms).unwrap();
    assert_eq!(c, Point3 { x: 3, y: 0, z: 1 });
    assert_eq!(atoms, vec![atom(7, -5, -1, 2), atom(-7, 7, 2, 1)]);
    let b = bounding_box(&atoms).unwrap();
    for (lo, hi) in [(b.min.x, b.max.x), (b.min.y, b.max.y), (b.min.z, b.max.z)] {
        assert!(lo <= hi);
        assert!(lo + hi == 0 || lo + hi == 1);
    }
}

#[test]
fn centering_rounds_down_on_negative_side() {
    let mut atoms = vec![atom(-2, 0, 0, 1), atom(-1, 0, 0, 1)];
    let c = center_atoms(&mut atoms).unwrap();
    assert_eq!(c.x, -2);
    assert_eq!(atoms[0].x, 0);
    assert_eq!(atoms[1].x, 1);
}

#[test]
fn centering_nothing_changes_nothing() {
    let mut atoms: Vec<Atom> = Vec::new();
    assert_eq!(center_atoms(&mut atoms), None);
    assert!(atoms.is_empty());
}
