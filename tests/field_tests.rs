use oxel::distance::DistanceField;
use oxel::grid::VoxelGrid;

fn grid_with(size: usize, filled: &[(usize, usize, usize)]) -> VoxelGrid {
    let mut g = VoxelGrid::empty(size);
    for &(x, y, z) in filled {
        let i = g.to_1d(x, y, z);
        g.voxels[i] = true;
    }
    g
}

#[test]
fn runs_along_a_row() {
    let g = grid_with(3, &[(0, 0, 0), (1, 0, 0), (2, 0, 0)]);
    let d = DistanceField::new(&g);
    assert_eq!((d.x[g.to_1d(0, 0, 0)], d.x[g.to_1d(1, 0, 0)], d.x[g.to_1d(2, 0, 0)]), (3, 2, 1));
    assert_eq!((d.y[g.to_1d(0, 0, 0)], d.z[g.to_1d(0, 0, 0)]), (1, 1));
    assert_eq!((d.x[g.to_1d(0, 1, 0)], d.y[g.to_1d(0, 1, 0)], d.z[g.to_1d(0, 1, 0)]), (0, 0, 0));
}

#[test]
fn runs_stop_at_gaps() {
    let g = grid_with(4, &[(1, 1, 0), (1, 1, 1), (1, 1, 3)]);
    let d = DistanceField::new(&g);
    assert_eq!(d.z[g.to_1d(1, 1, 0)], 2);
    assert_eq!(d.z[g.to_1d(1, 1, 1)], 1);
    assert_eq!(d.z[g.to_1d(1, 1, 2)], 0);
    assert_eq!(d.z[g.to_1d(1, 1, 3)], 1);
}

#[test]
fn field_matches_grid_on_every_filled_voxel() {
    let n = 6;
    let mut g = VoxelGrid::empty(n);
    for i in 0..n * n * n {
        g.voxels[i] = (i * 7 + i / 5) % 3 != 0;
    }
    let d = DistanceField::new(&g);
    for i in 0..n * n * n {
        let (x, y, z) = g.to_3d(i);
        if g.voxels[i] {
            assert!(d.x[i] >= 1 && d.y[i] >= 1 && d.z[i] >= 1);
            for k in 0..d.z[i] as usize {
                assert!(g.voxels[g.to_1d(x, y, z + k)]);
            }
            let next = z + d.z[i] as usize;
            assert!(next == n || !g.voxels[g.to_1d(x, y, next)]);
            for k in 0..d.x[i] as usize {
                assert!(g.voxels[g.to_1d(x + k, y, z)]);
            }
        } else {
            assert_eq!((d.x[i], d.y[i], d.z[i]), (0, 0, 0));
        }
    }
}
