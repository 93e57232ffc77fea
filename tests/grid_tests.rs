use oxel::grid::{Point3, VoxelGrid};

fn grid_with(size: usize, filled: &[(usize, usize, usize)]) -> VoxelGrid {
    let mut g = VoxelGrid::empty(size);
    for &(x, y, z) in filled {
        let i = g.to_1d(x, y, z);
        g.voxels[i] = true;
    }
    g
}

#[test]
fn flat_index_is_row_major() {
    let g = VoxelGrid::empty(4);
    assert_eq!(g.to_1d(1, 2, 3), 57);
    assert_eq!(g.to_1d(0, 0, 0), 0);
    assert_eq!(g.to_1d(3, 3, 3), 63);
}

#[test]
fn flat_index_round_trips() {
    let g = VoxelGrid::empty(5);
    for i in 0..125 {
        let (x, y, z) = g.to_3d(i);
        assert!(x < 5 && y < 5 && z < 5);
        assert_eq!(g.to_1d(x, y, z), i);
    }
    assert_eq!(g.to_3d(57), (2, 1, 2));
}

#[test]
fn empty_grid_has_no_filled_voxel() {
    let g = VoxelGrid::empty(3);
    assert_eq!(g.voxels.len(), 27);
    assert!(g.voxels.iter().all(|v| !v));
    assert_eq!(g.bb_min, Point3 { x: 0, y: 0, z: 0 });
}

#[test]
fn clear_box_empties_only_the_box() {
    let all: Vec<(usize, usize, usize)> = (0..3).flat_map(|z| (0..3).flat_map(move |y| (0..3).map(move |x| (x, y, z)))).collect();
    let mut g = grid_with(3, &all);
    let b = oxel::boxes::GridBox { min_x: 1, min_y: 0, min_z: 0, max_x: 3, max_y: 1, max_z: 2 };
    g.clear_box(b);
    for i in 0..27 {
        let (x, y, z) = g.to_3d(i);
        let inside = (1..3).contains(&x) && y == 0 && z < 2;
        assert_eq!(g.voxels[i], !inside);
    }
}
