use oxel::atoms::{bounding_box, Atom};
use oxel::voxelize::{GridError, Round};
use oxel::grid::Point3;
use oxel::grid::VoxelGrid;

fn atom(x: i64, y: i64, z: i64, radius: i64) -> Atom {
    Atom { x, y, z, radius }
}

fn count(g: &VoxelGrid) -> usize {
    g.voxels.iter().filter(|v| **v).count()
}

#[test]
fn no_atoms_is_no_geometry() {
    let mut atoms: Vec<Atom> = Vec::new();
    assert!(matches!(VoxelGrid::voxelize(&mut atoms, 8), Err(GridError::NoGeometry)));
    assert!(matches!(VoxelGrid::new(&mut atoms, 8), Err(GridError::NoGeometry)));
}

#[test]
fn flat_box_is_no_geometry() {
    let mut atoms = vec![atom(5, 5, 5, 0)];
    assert!(matches!(VoxelGrid::voxelize(&mut atoms, 8), Err(GridError::NoGeometry)));
    let mut atoms = vec![atom(0, 0, 0, 0), atom(10, 10, 0, 0)];
    assert!(matches!(VoxelGrid::voxelize(&mut atoms, 8), Err(GridError::NoGeometry)));
}

#[test]
fn sphere_fills_inner_voxels_only() {
    let mut atoms = vec![atom(0, 0, 0, 1000)];
    let g = VoxelGrid::voxelize(&mut atoms, 8).unwrap();
    assert_eq!(g.size, 8);
    assert_eq!((g.bb_min.x, g.bb_max.x), (-1000, 1000));
    assert_eq!(count(&g), 136);
    assert!(g.voxels[g.to_1d(3, 4, 3)]);
    assert!(g.voxels[g.to_1d(1, 2, 3)]);
    assert!(!g.voxels[g.to_1d(1, 2, 2)]);
    assert!(!g.voxels[g.to_1d(0, 3, 3)]);
    assert!(!g.voxels[g.to_1d(0, 0, 0)]);
}

#[test]
fn sphere_at_finer_resolution() {
    let mut atoms = vec![atom(0, 0, 0, 1000)];
    let g = VoxelGrid::voxelize(&mut atoms, 16).unwrap();
    assert_eq!(count(&g), 1568);
}

#[test]
fn grid_box_is_centred_atom_box() {
    let mut atoms = vec![atom(500, 200, -300, 100), atom(900, 260, -250, 50)];
    let g = VoxelGrid::voxelize(&mut atoms, 16).unwrap();
    let b = bounding_box(&atoms).unwrap();
    assert_eq!(g.bb_min, b.min);
    assert_eq!(g.bb_max, b.max);
    for (lo, hi) in [(g.bb_min.x, g.bb_max.x), (g.bb_min.y, g.bb_max.y), (g.bb_min.z, g.bb_max.z)] {
        assert!(lo <= hi);
        assert!(lo + hi == 0 || lo + hi == 1);
    }
    assert_eq!(atoms[0], atom(-175, -5, 0, 100));
    assert_eq!(atoms[1], atom(225, 55, 50, 50));
}

#[test]
fn tiny_sphere_fills_nothing() {
    let mut atoms = vec![atom(0, 0, 0, 1000), atom(990, 990, 990, 1)];
    let g = VoxelGrid::voxelize(&mut atoms, 8).unwrap();
    assert_eq!(count(&g), 136);
}

#[test]
fn single_sphere_has_no_cavity() {
    let mut a1 = vec![atom(0, 0, 0, 1000)];
    let mut a2 = a1.clone();
    let v = VoxelGrid::voxelize(&mut a1, 64).unwrap();
    let c = VoxelGrid::new(&mut a2, 64).unwrap();
    assert!(count(&v) > 0);
    assert_eq!(v.voxels, c.voxels);
}

#[test]
fn snap_rounds_to_voxel_space() {
    let mut atoms = vec![atom(0, 0, 0, 1000)];
    let g = VoxelGrid::voxelize(&mut atoms, 8).unwrap();
    let p = |x: i64| Point3 { x, y: x, z: x };
    assert_eq!(g.snap(p(0), Round::Floor), (4, 4, 4));
    assert_eq!(g.snap(p(-1000), Round::Floor), (0, 0, 0));
    assert_eq!(g.snap(p(1000), Round::Ceil), (8, 8, 8));
    assert_eq!(g.snap(p(-1), Round::Floor), (3, 3, 3));
    assert_eq!(g.snap(p(-1), Round::Ceil), (4, 4, 4));
    assert_eq!(g.snap(p(-1001), Round::Floor), (-1, -1, -1));
    assert_eq!(g.snap(p(-1001), Round::Ceil), (0, 0, 0));
    assert_eq!(g.snap(Point3 { x: 260, y: -260, z: 0 }, Round::Floor), (5, 2, 4));
}
