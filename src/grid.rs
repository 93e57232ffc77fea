use vstd::prelude::*;
use vstd::arithmetic::div_mod::{lemma_fundamental_div_mod, lemma_fundamental_div_mod_converse};

verus! {

/// Largest grid side accepted: the cube of the side must fit in memory and in `usize`.
pub const MAX_GRID_SIZE: usize = 1024;

/// Flat index of the voxel `(x, y, z)` in a cubic grid of side `n`.
pub open spec fn index_of(n: int, x: int, y: int, z: int) -> int {
    n * n * z + n * y + x
}

/// Whether `(x, y, z)` names a voxel of a cubic grid of side `n`.
pub open spec fn in_grid(n: int, x: int, y: int, z: int) -> bool {
    0 <= x < n && 0 <= y < n && 0 <= z < n
}

/// Whether `(x, y, z)` is an in-grid voxel that is filled in the voxel array `v` of side `n`.
pub open spec fn cell_filled(v: Seq<bool>, n: int, x: int, y: int, z: int) -> bool {
    in_grid(n, x, y, z) && v[index_of(n, x, y, z)]
}

/// Number of voxels of a cubic grid of side `n`.
pub open spec fn cube(n: int) -> int {
    n * n * n
}

/// The x coordinate of the voxel at flat index `i`.
pub open spec fn coord_x(n: int, i: int) -> int {
    (i % (n * n)) % n
}

/// The y coordinate of the voxel at flat index `i`.
pub open spec fn coord_y(n: int, i: int) -> int {
    (i % (n * n)) / n
}

/// The z coordinate of the voxel at flat index `i`.
pub open spec fn coord_z(n: int, i: int) -> int {
    i / (n * n)
}

/// The flat index of an in-grid voxel lies in `[0, n³)` and gives its coordinates back.
pub proof fn lemma_index_of(n: int, x: int, y: int, z: int)
    requires
        in_grid(n, x, y, z),
    ensures
        0 <= index_of(n, x, y, z) < cube(n),
        coord_x(n, index_of(n, x, y, z)) == x,
        coord_y(n, index_of(n, x, y, z)) == y,
        coord_z(n, index_of(n, x, y, z)) == z,
{
    let i = index_of(n, x, y, z);
    let r = n * y + x;
    assert(0 <= r < n * n) by (nonlinear_arith)
        requires 0 <= x < n, 0 <= y < n, r == n * y + x;
    assert(i == z * (n * n) + r) by (nonlinear_arith)
        requires i == n * n * z + n * y + x, r == n * y + x;
    lemma_fundamental_div_mod_converse(i, n * n, z, r);
    assert(r == y * n + x) by (nonlinear_arith)
        requires r == n * y + x;
    lemma_fundamental_div_mod_converse(r, n, y, x);
    assert(0 <= i < cube(n)) by (nonlinear_arith)
        requires i == z * (n * n) + r, 0 <= r < n * n, 0 <= z < n;
}

/// Every flat index in `[0, n³)` is the index of an in-grid voxel.
pub proof fn lemma_coords_of(n: int, i: int)
    requires
        n >= 1,
        0 <= i < cube(n),
    ensures
        in_grid(n, coord_x(n, i), coord_y(n, i), coord_z(n, i)),
        index_of(n, coord_x(n, i), coord_y(n, i), coord_z(n, i)) == i,
{
    let nn = n * n;
    assert(nn >= 1) by (nonlinear_arith)
        requires n >= 1, nn == n * n;
    lemma_fundamental_div_mod(i, nn);
    let z = i / nn;
    let r = i % nn;
    lemma_fundamental_div_mod(r, n);
    assert(0 <= z < n) by (nonlinear_arith)
        requires 0 <= i < n * n * n, i == nn * z + r, 0 <= r < nn, nn == n * n, n >= 1;
    assert(0 <= r / n < n) by (nonlinear_arith)
        requires 0 <= r < n * n, r == n * (r / n) + r % n, 0 <= r % n < n, n >= 1;
    assert(i == n * n * z + n * (r / n) + r % n) by (nonlinear_arith)
        requires i == nn * z + r, r == n * (r / n) + r % n, nn == n * n;
}

/// The square and the cube of an accepted grid side fit in 32 bits.
pub proof fn lemma_cube_fits(n: int)
    requires
        1 <= n <= MAX_GRID_SIZE,
    ensures
        1 <= n * n <= 0x10_0000,
        1 <= n * n * n <= 0x4000_0000,
        n * n * n == cube(n),
{
    assert(1 <= n * n <= 1024 * 1024) by (nonlinear_arith)
        requires 1 <= n <= 1024;
    assert(1 <= n * n * n <= 1024 * 1024 * 1024) by (nonlinear_arith)
        requires 1 <= n <= 1024, 1 <= n * n <= 1024 * 1024;
}

/// A point in fixed-point world coordinates.
#[derive(Clone, Copy, Debug, PartialEq, Eq, Structural)]
pub struct Point3 {
    pub x: i64,
    pub y: i64,
    pub z: i64,
}

impl Point3 {
    /// The coordinate along `axis` (0 for x, 1 for y, 2 for z).
    pub open spec fn axis(&self, axis: int) -> int {
        if axis == 0 {
            self.x as int
        } else if axis == 1 {
            self.y as int
        } else {
            self.z as int
        }
    }
}

/// Dense cubic occupancy grid, stored as a flat array indexed by `index_of`. The grid spans
/// the world box `[bb_min, bb_max]`, cut into `size` equal parts along each axis.
pub struct VoxelGrid {
    pub size: usize,
    pub bb_min: Point3,
    pub bb_max: Point3,
    pub voxels: Vec<bool>,
}

impl VoxelGrid {
    /// The grid's side is in range and it holds exactly `size³` voxels.
    pub open spec fn wf(&self) -> bool {
        &&& 1 <= self.size <= MAX_GRID_SIZE
        &&& self.voxels@.len() == cube(self.size as int)
    }

    /// Whether voxel `(x, y, z)` is filled.
    pub open spec fn filled(&self, x: int, y: int, z: int) -> bool {
        self.voxels@[index_of(self.size as int, x, y, z)]
    }

    /// An empty grid of side `size`, over the world box whose corners are both the origin.
    pub fn empty(size: usize) -> (g: VoxelGrid)
        requires
            1 <= size <= MAX_GRID_SIZE,
        ensures
            g.wf(),
            g.size == size,
            g.bb_min == (Point3 { x: 0, y: 0, z: 0 }),
            g.bb_max == (Point3 { x: 0, y: 0, z: 0 }),
            forall|i: int| 0 <= i < g.voxels@.len() ==> !g.voxels@[i],
    {
        proof {
            lemma_cube_fits(size as int);
        }
        let total: usize = size * size * size;
        let voxels = vec![false; total];
        let origin = Point3 { x: 0, y: 0, z: 0 };
        VoxelGrid { size, bb_min: origin, bb_max: origin, voxels }
    }

    /// Flat index of an in-grid voxel: `width * height * z + width * y + x`.
    pub fn to_1d(&self, x: usize, y: usize, z: usize) -> (i: usize)
        requires
            self.wf(),
            in_grid(self.size as int, x as int, y as int, z as int),
        ensures
            i == index_of(self.size as int, x as int, y as int, z as int),
            i < self.voxels@.len(),
    {
        let n = self.size;
        proof {
            lemma_index_of(n as int, x as int, y as int, z as int);
            lemma_cube_fits(n as int);
            assert(n * n * z <= n * n * n) by (nonlinear_arith)
                requires 0 <= z < n;
            assert(n * y <= n * n) by (nonlinear_arith)
                requires 0 <= y < n;
        }
        n * n * z + n * y + x
    }

    /// Coordinates of the voxel at a flat index.
    pub fn to_3d(&self, i: usize) -> (p: (usize, usize, usize))
        requires
            self.wf(),
            i < self.voxels@.len(),
        ensures
            in_grid(self.size as int, p.0 as int, p.1 as int, p.2 as int),
            index_of(self.size as int, p.0 as int, p.1 as int, p.2 as int) == i,
            p.0 == coord_x(self.size as int, i as int),
            p.1 == coord_y(self.size as int, i as int),
            p.2 == coord_z(self.size as int, i as int),
    {
        let n = self.size;
        proof {
            lemma_coords_of(n as int, i as int);
            lemma_cube_fits(n as int);
        }
        let slice = n * n;
        let z = i / slice;
        let y = (i % slice) / n;
        let x = (i % slice) % n;
        (x, y, z)
    }
}

} // verus!
