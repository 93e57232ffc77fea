use oxel::atoms::Atom;
use oxel::boxes::GridBox;
use oxel::grid::VoxelGrid;

fn cube_grid(size: usize, lo: usize, hi: usize) -> VoxelGrid {
    let mut g = VoxelGrid::empty(size);
    for z in lo..hi {
        for y in lo..hi {
            for x in lo..hi {
                let i = g.to_1d(x, y, z);
                g.voxels[i] = true;
            }
        }
    }
    g
}

fn voxels_of(b: &GridBox) -> Vec<(usize, usize, usize)> {
    let mut v = Vec::new();
    for z in b.min_z..b.max_z {
        for y in b.min_y..b.max_y {
            for x in b.min_x..b.max_x {
                v.push((x, y, z));
            }
        }
    }
    v
}

fn volume(b: &GridBox) -> usize {
    (b.max_x - b.min_x) * (b.max_y - b.min_y) * (b.max_z - b.min_z)
}

/// Checks the extraction laws: each box is non-empty, lies in voxels filled before its
/// round, starts at that round's first filled voxel, and the grid ends as the original
/// minus all boxes.
fn check_extraction(before: &VoxelGrid, after: &VoxelGrid, boxes: &[GridBox]) {
    let mut current = before.voxels.clone();
    for b in boxes {
        assert!(volume(b) > 0);
        let first = current.iter().position(|v| *v).unwrap();
        assert_eq!(first, before.to_1d(b.min_x, b.min_y, b.min_z));
        for (x, y, z) in voxels_of(b) {
            let i = before.to_1d(x, y, z);
            assert!(current[i]);
            current[i] = false;
        }
    }
    assert_eq!(after.voxels, current);
}

#[test]
fn cube_is_one_box() {
    let mut g = cube_grid(4, 1, 3);
    let boxes = g.get_box_occluders(2);
    assert_eq!(boxes, vec![GridBox { min_x: 1, min_y: 1, min_z: 1, max_x: 3, max_y: 3, max_z: 3 }]);
    assert!(g.voxels.iter().all(|v| !v));
}

#[test]
fn zero_limit_extracts_nothing() {
    let mut g = cube_grid(4, 1, 3);
    let before = g.voxels.clone();
    assert!(g.get_box_occluders(0).is_empty());
    assert_eq!(g.voxels, before);
}

#[test]
fn empty_grid_has_no_boxes() {
    let mut g = VoxelGrid::empty(5);
    assert!(g.get_box_occluders(3).is_empty());
}

#[test]
fn l_shape_gives_disjoint_boxes() {
    let mut g = VoxelGrid::empty(5);
    for z in 0..2 {
        for y in 0..4 {
            for x in 0..4 {
                if x < 2 || y < 2 {
                    let i = g.to_1d(x, y, z);
                    g.voxels[i] = true;
                }
            }
        }
    }
    let before = VoxelGrid { size: g.size, bb_min: g.bb_min, bb_max: g.bb_max, voxels: g.voxels.clone() };
    let boxes = g.get_box_occluders(10);
    assert!(boxes.len() < 10);
    check_extraction(&before, &g, &boxes);
    assert!(g.voxels.iter().all(|v| !v));
    for (i, a) in boxes.iter().enumerate() {
        for b in boxes.iter().skip(i + 1) {
            let va = voxels_of(a);
            assert!(voxels_of(b).iter().all(|p| !va.contains(p)));
        }
    }
}

#[test]
fn single_sphere_box_lies_in_the_sphere() {
    let mut atoms = vec![Atom { x: 0, y: 0, z: 0, radius: 1000 }];
    let mut g = VoxelGrid::new(&mut atoms, 64).unwrap();
    let before = VoxelGrid { size: g.size, bb_min: g.bb_min, bb_max: g.bb_max, voxels: g.voxels.clone() };
    let boxes = g.get_box_occluders(1);
    assert_eq!(boxes.len(), 1);
    assert!(volume(&boxes[0]) > 0);
    check_extraction(&before, &g, &boxes);
}

#[test]
fn sphere_box_at_low_resolution() {
    let mut atoms = vec![Atom { x: 0, y: 0, z: 0, radius: 1000 }];
    let mut g = VoxelGrid::new(&mut atoms, 8).unwrap();
    let boxes = g.get_box_occluders(1);
    assert_eq!(boxes, vec![GridBox { min_x: 3, min_y: 2, min_z: 1, max_x: 5, max_y: 6, max_z: 7 }]);
}

#[test]
fn two_far_spheres_give_one_box_each() {
    let mut atoms = vec![Atom { x: -3000, y: 0, z: 0, radius: 1000 }, Atom { x: 3000, y: 0, z: 0, radius: 1000 }];
    let mut g = VoxelGrid::new(&mut atoms, 32).unwrap();
    let before = VoxelGrid { size: g.size, bb_min: g.bb_min, bb_max: g.bb_max, voxels: g.voxels.clone() };
    let boxes = g.get_box_occluders(2);
    assert_eq!(
        boxes,
        vec![
            GridBox { min_x: 3, min_y: 13, min_z: 1, max_x: 5, max_y: 19, max_z: 31 },
            GridBox { min_x: 27, min_y: 13, min_z: 1, max_x: 29, max_y: 19, max_z: 31 },
        ]
    );
    check_extraction(&before, &g, &boxes);
    assert!(boxes[0].max_x < boxes[1].min_x);
}
