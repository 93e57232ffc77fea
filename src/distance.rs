use vstd::prelude::*;
use crate::grid::{VoxelGrid, index_of, in_grid, cube, cell_filled, coord_x, coord_y, coord_z, lemma_index_of, lemma_coords_of, lemma_cube_fits};

verus! {

/// The x, y, z coordinates of the voxel at line position `(a, b, c)` of a sweep along `axis`
/// (0 for x, 1 for y, 2 for z): `c` runs along the axis, `a` and `b` pick the line.
pub open spec fn line_pos(axis: int, a: int, b: int, c: int) -> (int, int, int) {
    if axis == 0 {
        (c, a, b)
    } else if axis == 1 {
        (b, c, a)
    } else {
        (a, b, c)
    }
}

/// The line coordinates `(a, b, c)` of the voxel at flat index `i` for a sweep along `axis`.
pub open spec fn line_of(n: int, axis: int, i: int) -> (int, int, int) {
    let (x, y, z) = (coord_x(n, i), coord_y(n, i), coord_z(n, i));
    if axis == 0 {
        (y, z, x)
    } else if axis == 1 {
        (z, x, y)
    } else {
        (x, y, z)
    }
}

/// Number of consecutive filled voxels from line position `(a, b, c)` onwards, walking
/// along `axis` in the positive direction; zero where that voxel is empty or outside.
pub open spec fn run_line(v: Seq<bool>, n: int, axis: int, a: int, b: int, c: int) -> nat
    decreases n - c,
{
    let p = line_pos(axis, a, b, c);
    if in_grid(n, p.0, p.1, p.2) && v[index_of(n, p.0, p.1, p.2)] {
        1 + run_line(v, n, axis, a, b, c + 1)
    } else {
        0
    }
}

/// Run length along `axis` starting at voxel `(x, y, z)`, inclusive.
pub open spec fn run_from(v: Seq<bool>, n: int, axis: int, x: int, y: int, z: int) -> nat {
    if axis == 0 {
        run_line(v, n, 0, y, z, x)
    } else if axis == 1 {
        run_line(v, n, 1, z, x, y)
    } else {
        run_line(v, n, 2, x, y, z)
    }
}

/// Run length along `axis` starting at the voxel with flat index `i`.
pub open spec fn run_at(v: Seq<bool>, n: int, axis: int, i: int) -> nat {
    run_from(v, n, axis, coord_x(n, i), coord_y(n, i), coord_z(n, i))
}

/// Per voxel, the number of consecutive filled voxels in each positive axis direction,
/// the voxel itself included; zero on empty voxels.
pub struct DistanceField {
    pub x: Vec<u32>,
    pub y: Vec<u32>,
    pub z: Vec<u32>,
}

impl DistanceField {
    /// The field is the exact run-length field of the voxel array `v` of side `n`.
    pub open spec fn matches(&self, v: Seq<bool>, n: int) -> bool {
        &&& self.x@.len() == cube(n)
        &&& self.y@.len() == cube(n)
        &&& self.z@.len() == cube(n)
        &&& forall|i: int| 0 <= i < cube(n) ==> #[trigger] self.x@[i] == run_at(v, n, 0, i)
        &&& forall|i: int| 0 <= i < cube(n) ==> #[trigger] self.y@[i] == run_at(v, n, 1, i)
        &&& forall|i: int| 0 <= i < cube(n) ==> #[trigger] self.z@[i] == run_at(v, n, 2, i)
    }

    /// Builds the field of `grid` with one descending sweep per axis.
    pub fn new(grid: &VoxelGrid) -> (d: DistanceField)
        requires
            grid.wf(),
        ensures
            d.matches(grid.voxels@, grid.size as int),
    {
        let x = sweep(grid, 0);
        let y = sweep(grid, 1);
        let z = sweep(grid, 2);
        DistanceField { x, y, z }
    }
}

/// A run never leaves the grid: it is at most the number of positions left on its line.
pub proof fn lemma_run_bound(v: Seq<bool>, n: int, axis: int, a: int, b: int, c: int)
    requires
        0 <= c,
    ensures
        run_line(v, n, axis, a, b, c) <= if c <= n { n - c } else { 0 },
    decreases n - c,
{
    let p = line_pos(axis, a, b, c);
    if in_grid(n, p.0, p.1, p.2) && v[index_of(n, p.0, p.1, p.2)] {
        lemma_run_bound(v, n, axis, a, b, c + 1);
    }
}

/// A run of length `d` from `(a, b, c)` consists of filled voxels at `c, c + 1, ..., c + d - 1`.
pub proof fn lemma_run_filled(v: Seq<bool>, n: int, axis: int, a: int, b: int, c: int, k: int)
    requires
        0 <= k < run_line(v, n, axis, a, b, c),
    ensures
        ({
            let p = line_pos(axis, a, b, c + k);
            in_grid(n, p.0, p.1, p.2) && v[index_of(n, p.0, p.1, p.2)]
        }),
    decreases k,
{
    if k > 0 {
        lemma_run_filled(v, n, axis, a, b, c + 1, k - 1);
    }
}

/// On a filled voxel every component of a matching field is at least 1, and a z component
/// `d` means the voxels `(x, y, z), (x, y, z + 1), ..., (x, y, z + d - 1)` are all filled
/// (likewise along x and y).
pub proof fn lemma_field_consistent(field: &DistanceField, v: Seq<bool>, n: int, x: int, y: int, z: int, k: int)
    requires
        field.matches(v, n),
        cell_filled(v, n, x, y, z),
    ensures
        field.x@[index_of(n, x, y, z)] >= 1,
        field.y@[index_of(n, x, y, z)] >= 1,
        field.z@[index_of(n, x, y, z)] >= 1,
        0 <= k < field.x@[index_of(n, x, y, z)] ==> cell_filled(v, n, x + k, y, z),
        0 <= k < field.y@[index_of(n, x, y, z)] ==> cell_filled(v, n, x, y + k, z),
        0 <= k < field.z@[index_of(n, x, y, z)] ==> cell_filled(v, n, x, y, z + k),
{
    let i = index_of(n, x, y, z);
    lemma_index_of(n, x, y, z);
    assert(field.x@[i] == run_line(v, n, 0, y, z, x));
    assert(field.y@[i] == run_line(v, n, 1, z, x, y));
    assert(field.z@[i] == run_line(v, n, 2, x, y, z));
    if 0 <= k < field.x@[i] {
        lemma_run_filled(v, n, 0, y, z, x, k);
    }
    if 0 <= k < field.y@[i] {
        lemma_run_filled(v, n, 1, z, x, y, k);
    }
    if 0 <= k < field.z@[i] {
        lemma_run_filled(v, n, 2, x, y, z, k);
    }
}

/// One descending sweep along `axis`: the run length of every voxel along that axis.
fn sweep(grid: &VoxelGrid, axis: u8) -> (d: Vec<u32>)
    requires
        grid.wf(),
        axis < 3,
    ensures
        d@.len() == cube(grid.size as int),
        forall|i: int| 0 <= i < cube(grid.size as int) ==> #[trigger] d@[i] == run_at(grid.voxels@, grid.size as int, axis as int, i),
{
    let n = grid.size;
    let ghost v = grid.voxels@;
    let ghost ni = n as int;
    let ghost ax = axis as int;
    proof {
        lemma_cube_fits(ni);
    }
    let total: usize = n * n * n;
    let mut d: Vec<u32> = vec![0u32; total];
    let mut a: usize = 0;
    while a < n
        invariant
            grid.wf(),
            n == grid.size,
            v == grid.voxels@,
            ni == n,
            ax == axis,
            axis < 3,
            a <= n,
            d@.len() == cube(ni),
            forall|i: int| 0 <= i < cube(ni) && line_of(ni, ax, i).0 < a
                ==> #[trigger] d@[i] == run_line(v, ni, ax, line_of(ni, ax, i).0, line_of(ni, ax, i).1, line_of(ni, ax, i).2),
        decreases n - a,
    {
        let mut b: usize = 0;
        while b < n
            invariant
                grid.wf(),
                n == grid.size,
                v == grid.voxels@,
                ni == n,
                ax == axis,
                axis < 3,
                a < n,
                b <= n,
                d@.len() == cube(ni),
                forall|i: int| 0 <= i < cube(ni) && (line_of(ni, ax, i).0 < a
                    || (line_of(ni, ax, i).0 == a && line_of(ni, ax, i).1 < b))
                    ==> #[trigger] d@[i] == run_line(v, ni, ax, line_of(ni, ax, i).0, line_of(ni, ax, i).1, line_of(ni, ax, i).2),
            decreases n - b,
        {
            let mut count: u32 = 1;
            let mut c: usize = n;
            proof {
                assert forall|j: int| 0 <= j < cube(ni) implies line_of(ni, ax, j).2 < n by {
                    lemma_coords_of(ni, j);
                }
            }
            while c > 0
                invariant
                    grid.wf(),
                    n == grid.size,
                    v == grid.voxels@,
                    ni == n,
                    ax == axis,
                    axis < 3,
                    a < n,
                    b < n,
                    c <= n,
                    d@.len() == cube(ni),
                    count == 1 + run_line(v, ni, ax, a as int, b as int, c as int),
                    count <= n - c + 1,
                    forall|i: int| 0 <= i < cube(ni) && (line_of(ni, ax, i).0 < a
                        || (line_of(ni, ax, i).0 == a && line_of(ni, ax, i).1 < b)
                        || (line_of(ni, ax, i).0 == a && line_of(ni, ax, i).1 == b && line_of(ni, ax, i).2 >= c))
                        ==> #[trigger] d@[i] == run_line(v, ni, ax, line_of(ni, ax, i).0, line_of(ni, ax, i).1, line_of(ni, ax, i).2),
                decreases c,
            {
                c -= 1;
                let i = if axis == 0 {
                    grid.to_1d(c, a, b)
                } else if axis == 1 {
                    grid.to_1d(b, c, a)
                } else {
                    grid.to_1d(a, b, c)
                };
                proof {
                    let p = line_pos(ax, a as int, b as int, c as int);
                    lemma_index_of(ni, p.0, p.1, p.2);
                    assert(line_of(ni, ax, i as int) == (a as int, b as int, c as int));
                }
                let ghost d_before = d@;
                if grid.voxels[i] {
                    d.set(i, count);
                    count += 1;
                } else {
                    d.set(i, 0);
                    count = 1;
                }
                proof {
                    assert(d@[i as int] == run_line(v, ni, ax, a as int, b as int, c as int));
                    assert forall|j: int| 0 <= j < cube(ni) && (line_of(ni, ax, j).0 < a
                        || (line_of(ni, ax, j).0 == a && line_of(ni, ax, j).1 < b)
                        || (line_of(ni, ax, j).0 == a && line_of(ni, ax, j).1 == b && line_of(ni, ax, j).2 >= c))
                        implies #[trigger] d@[j] == run_line(v, ni, ax, line_of(ni, ax, j).0, line_of(ni, ax, j).1, line_of(ni, ax, j).2) by {
                        lemma_coords_of(ni, j);
                        if j != i {
                            assert(d@[j] == d_before[j]);
                        }
                    }
                }
            }
            proof {
                assert forall|i: int| 0 <= i < cube(ni) && (line_of(ni, ax, i).0 < a
                    || (line_of(ni, ax, i).0 == a && line_of(ni, ax, i).1 < b + 1))
                    implies #[trigger] d@[i] == run_line(v, ni, ax, line_of(ni, ax, i).0, line_of(ni, ax, i).1, line_of(ni, ax, i).2) by {
                    lemma_coords_of(ni, i);
                }
            }
            b += 1;
        }
        proof {
            assert forall|j: int| 0 <= j < cube(ni) && line_of(ni, ax, j).0 < a + 1
                implies #[trigger] d@[j] == run_line(v, ni, ax, line_of(ni, ax, j).0, line_of(ni, ax, j).1, line_of(ni, ax, j).2) by {
                lemma_coords_of(ni, j);
            }
        }
        a += 1;
    }
    proof {
        assert forall|i: int| 0 <= i < cube(ni) implies #[trigger] d@[i] == run_at(v, ni, ax, i) by {
            lemma_coords_of(ni, i);
        }
    }
    d
}

} // verus!
