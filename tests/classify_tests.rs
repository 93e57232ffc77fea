use oxel::grid::VoxelGrid;

/// A 3 × 3 × 3 block of filled voxels at 1..4 in a grid of side 5, with its centre left empty.
fn hollow_block() -> VoxelGrid {
    let mut g = VoxelGrid::empty(5);
    for z in 1..4 {
        for y in 1..4 {
            for x in 1..4 {
                if (x, y, z) != (2, 2, 2) {
                    let i = g.to_1d(x, y, z);
                    g.voxels[i] = true;
                }
            }
        }
    }
    g
}

#[test]
fn enclosed_cavity_is_filled() {
    let mut g = hollow_block();
    let centre = g.to_1d(2, 2, 2);
    assert!(!g.voxels[centre]);
    let before = g.voxels.clone();
    g.classify_interior();
    assert!(g.voxels[centre]);
    for i in 0..g.voxels.len() {
        if i != centre {
            assert_eq!(g.voxels[i], before[i]);
        }
    }
}

#[test]
fn cavity_open_through_a_corner_stays_empty() {
    let mut g = hollow_block();
    let corner = g.to_1d(1, 1, 1);
    g.voxels[corner] = false;
    let centre = g.to_1d(2, 2, 2);
    g.classify_interior();
    assert!(!g.voxels[centre]);
    assert!(!g.voxels[corner]);
}

#[test]
fn face_gap_does_not_open_a_cavity() {
    let mut g = hollow_block();
    let face = g.to_1d(1, 2, 2);
    g.voxels[face] = false;
    let centre = g.to_1d(2, 2, 2);
    g.classify_interior();
    assert!(g.voxels[centre]);
}

#[test]
fn classification_is_idempotent() {
    let n = 7;
    let mut g = VoxelGrid::empty(n);
    for i in 0..n * n * n {
        g.voxels[i] = (i * 13 + i / 7) % 4 == 0;
    }
    g.classify_interior();
    let once = g.voxels.clone();
    g.classify_interior();
    assert_eq!(g.voxels, once);
    let mut h = hollow_block();
    h.classify_interior();
    let once = h.voxels.clone();
    h.classify_interior();
    assert_eq!(h.voxels, once);
}

#[test]
fn empty_grid_stays_empty() {
    let mut g = VoxelGrid::empty(4);
    g.classify_interior();
    assert!(g.voxels.iter().all(|v| !v));
}

#[test]
fn shell_of_atoms_encloses_a_cavity() {
    let mut atoms = Vec::new();
    for x in -1i64..=1 {
        for y in -1i64..=1 {
            for z in -1i64..=1 {
                if (x, y, z) != (0, 0, 0) {
                    atoms.push(oxel::atoms::Atom { x: x * 1000, y: y * 1000, z: z * 1000, radius: 800 });
                }
            }
        }
    }
    let mut g = VoxelGrid::voxelize(&mut atoms, 24).unwrap();
    let filled_before = g.voxels.iter().filter(|v| **v).count();
    assert_eq!(filled_before, 8344);
    let centre = g.to_1d(12, 12, 12);
    assert!(!g.voxels[centre]);
    let before = g.voxels.clone();
    g.classify_interior();
    assert!(g.voxels[centre]);
    assert_eq!(g.voxels.iter().filter(|v| **v).count(), filled_before + 344);
    for i in 0..before.len() {
        assert!(!before[i] || g.voxels[i]);
    }
}
