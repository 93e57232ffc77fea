use vstd::prelude::*;
use crate::grid::{VoxelGrid, index_of, in_grid, cube, cell_filled, coord_x, coord_y, coord_z, lemma_index_of, lemma_cube_fits};
use crate::distance::{DistanceField, run_line, lemma_run_filled, lemma_run_bound};

verus! {

/// An axis-aligned box of voxels in grid space, half-open: it holds the voxels
/// `(x, y, z)` with `min_x <= x < max_x`, `min_y <= y < max_y` and `min_z <= z < max_z`.
#[derive(Clone, Copy, Debug, PartialEq, Eq, Structural)]
pub struct GridBox {
    pub min_x: usize,
    pub min_y: usize,
    pub min_z: usize,
    pub max_x: usize,
    pub max_y: usize,
    pub max_z: usize,
}

impl GridBox {
    /// Whether voxel `(x, y, z)` lies in the box.
    pub open spec fn contains(&self, x: int, y: int, z: int) -> bool {
        &&& self.min_x <= x < self.max_x
        &&& self.min_y <= y < self.max_y
        &&& self.min_z <= z < self.max_z
    }

    /// The box holds at least one voxel and lies inside a grid of side `n`.
    pub open spec fn proper(&self, n: int) -> bool {
        &&& self.min_x < self.max_x <= n
        &&& self.min_y < self.max_y <= n
        &&& self.min_z < self.max_z <= n
    }
}

/// Every voxel of the rectangle `[x, x + w) × [y, y + h)` of slice `z` is filled.
pub open spec fn rect_filled(v: Seq<bool>, n: int, x: int, y: int, z: int, w: int, h: int) -> bool {
    forall|u: int, t: int| 0 <= u < w && 0 <= t < h ==> #[trigger] cell_filled(v, n, x + u, y + t, z as int)
}

/// Whether `i` is the first filled voxel of `v` in flat index order.
pub open spec fn first_filled(v: Seq<bool>, i: int) -> bool {
    &&& 0 <= i < v.len()
    &&& v[i]
    &&& forall|j: int| 0 <= j < i ==> !v[j]
}

/// The diagonal walk of slice `z` from corner `(x, y)`, at diagonal step `i` with the
/// rectangle narrowed so far to `w × h`; `sx` and `sy` are the corner's own runs along x and y.
pub open spec fn walk(v: Seq<bool>, n: int, x: int, y: int, z: int, sx: int, sy: int, i: int, w: int, h: int) -> (int, int)
    decreases sx - i,
{
    if i < sx && i < sy {
        if cell_filled(v, n, x + i, y + i, z) {
            let dx = run_line(v, n, 0, y + i, z, x + i) + i;
            let dy = run_line(v, n, 1, z, x + i, y + i) + i;
            walk(v, n, x, y, z, sx, sy, i + 1, if dx < w { dx } else { w }, if dy < h { dy } else { h })
        } else {
            (if i < w { i } else { w }, if i < h { i } else { h })
        }
    } else {
        (w, h)
    }
}

/// Width and height of the rectangle of slice `z` with corner `(x, y)` that the diagonal walk
/// finds: it starts from the corner's runs along x and y, each filled diagonal voxel `(x + i,
/// y + i)` caps the width at its run along x plus `i` and the height at its run along y plus
/// `i`, and the first empty diagonal voxel caps both at `i`.
pub open spec fn slice_rect(v: Seq<bool>, n: int, x: int, y: int, z: int) -> (int, int) {
    let sx = run_line(v, n, 0, y, z, x) as int;
    let sy = run_line(v, n, 1, z, x, y) as int;
    walk(v, n, x, y, z, sx, sy, 1, sx, sy)
}

/// The stacking of slices `z + k, z + k + 1, ...` below height `dz` on corner `(x, y)`: `mx × my`
/// is the rectangle common to the slices so far and `(bx, by, bk)` the best box found, of
/// volume `best`.
pub open spec fn stack(v: Seq<bool>, n: int, x: int, y: int, z: int, dz: int, k: int, mx: int, my: int,
    best: int, bx: int, by: int, bk: int) -> (int, int, int)
    decreases dz - k,
{
    if k < dz {
        let r = slice_rect(v, n, x, y, z + k);
        let mx2 = if k == 0 || r.0 < mx { r.0 } else { mx };
        let my2 = if k == 0 || r.1 < my { r.1 } else { my };
        let vol = mx2 * my2 * (k + 1);
        if vol > best {
            stack(v, n, x, y, z, dz, k + 1, mx2, my2, vol, mx2, my2, k + 1)
        } else {
            stack(v, n, x, y, z, dz, k + 1, mx2, my2, best, bx, by, bk)
        }
    } else {
        (bx, by, bk)
    }
}

/// Extent `(width, height, depth)` of the box stacked on voxel `(x, y, z)`: for each height `k`
/// up to the voxel's run along z, the rectangle common to the diagonal rectangles of the `k`
/// lowest slices makes a box of depth `k`; the box of largest volume is kept (the lowest on
/// ties).
pub open spec fn stacked(v: Seq<bool>, n: int, x: int, y: int, z: int) -> (int, int, int) {
    stack(v, n, x, y, z, run_line(v, n, 2, x, y, z) as int, 0, 0, 0, 0, 0, 0, 0)
}

/// Index of the first filled voxel, if any.
fn find_first_filled(grid: &VoxelGrid) -> (r: Option<usize>)
    requires
        grid.wf(),
    ensures
        match r {
            Some(i) => first_filled(grid.voxels@, i as int),
            None => forall|j: int| 0 <= j < grid.voxels@.len() ==> !grid.voxels@[j],
        },
{
    let mut i: usize = 0;
    while i < grid.voxels.len()
        invariant
            i <= grid.voxels@.len(),
            forall|j: int| 0 <= j < i ==> !grid.voxels@[j],
        decreases grid.voxels@.len() - i,
    {
        if grid.voxels[i] {
            return Some(i);
        }
        i += 1;
    }
    None
}

/// Largest rectangle of slice `z` with corner `(x, y)` found by walking the diagonal from
/// that corner: each diagonal voxel narrows the width by its run along x and the height by
/// its run along y, and the first empty diagonal voxel bounds both.
fn slice_extent(grid: &VoxelGrid, field: &DistanceField, x: usize, y: usize, z: usize) -> (r: (usize, usize))
    requires
        grid.wf(),
        field.matches(grid.voxels@, grid.size as int),
        cell_filled(grid.voxels@, grid.size as int, x as int, y as int, z as int),
    ensures
        1 <= r.0 && x + r.0 <= grid.size,
        1 <= r.1 && y + r.1 <= grid.size,
        rect_filled(grid.voxels@, grid.size as int, x as int, y as int, z as int, r.0 as int, r.1 as int),
        (r.0 as int, r.1 as int) == slice_rect(grid.voxels@, grid.size as int, x as int, y as int, z as int),
{
    let ghost v = grid.voxels@;
    let ghost n = grid.size as int;
    let base = grid.to_1d(x, y, z);
    proof {
        lemma_index_of(n, x as int, y as int, z as int);
        lemma_run_bound(v, n, 0, y as int, z as int, x as int);
        lemma_run_bound(v, n, 1, z as int, x as int, y as int);
    }
    let sx = field.x[base] as usize;
    let sy = field.y[base] as usize;
    let mut w: usize = sx;
    let mut h: usize = sy;
    let mut i: usize = 1;
    proof {
        assert(sx == run_line(v, n, 0, y as int, z as int, x as int));
        assert(sy == run_line(v, n, 1, z as int, x as int, y as int));
        assert forall|u: int, t: int| 0 <= u < w && 0 <= t < h && (u < i || t < i)
            implies #[trigger] cell_filled(v, n, x + u, y + t, z as int) by {
            if t == 0 {
                lemma_run_filled(v, n, 0, y as int, z as int, x as int, u);
            } else {
                lemma_run_filled(v, n, 1, z as int, x as int, y as int, t);
            }
        }
    }
    while i < sx && i < sy
        invariant_except_break
            grid.wf(),
            field.matches(v, n),
            v == grid.voxels@,
            n == grid.size,
            1 <= i,
            z < n,
            1 <= w <= sx,
            1 <= h <= sy,
            x + sx <= n,
            y + sy <= n,
            forall|u: int, t: int| 0 <= u < w && 0 <= t < h && (u < i || t < i)
                ==> #[trigger] cell_filled(v, n, x + u, y + t, z as int),
            walk(v, n, x as int, y as int, z as int, sx as int, sy as int, i as int, w as int, h as int)
                == slice_rect(v, n, x as int, y as int, z as int),
        ensures
            (w as int, h as int) == slice_rect(v, n, x as int, y as int, z as int),
            1 <= w <= sx,
            1 <= h <= sy,
            x + sx <= n,
            y + sy <= n,
            forall|u: int, t: int| 0 <= u < w && 0 <= t < h ==> #[trigger] cell_filled(v, n, x + u, y + t, z as int),
        decreases sx - i,
    {
        let q = grid.to_1d(x + i, y + i, z);
        if grid.voxels[q] {
            proof {
                lemma_index_of(n, x + i, y + i, z as int);
                lemma_run_bound(v, n, 0, (y + i) as int, z as int, (x + i) as int);
                lemma_run_bound(v, n, 1, z as int, (x + i) as int, (y + i) as int);
            }
            let dx = field.x[q] as usize;
            let dy = field.y[q] as usize;
            proof {
                assert(dx == run_line(v, n, 0, (y + i) as int, z as int, (x + i) as int));
                assert(dy == run_line(v, n, 1, z as int, (x + i) as int, (y + i) as int));
            }
            let ghost old_w = w;
            let ghost old_h = h;
            if dx + i < w {
                w = dx + i;
            }
            if dy + i < h {
                h = dy + i;
            }
            proof {
                assert forall|u: int, t: int| 0 <= u < w && 0 <= t < h && (u < i + 1 || t < i + 1)
                    implies #[trigger] cell_filled(v, n, x + u, y + t, z as int) by {
                    if u < i || t < i {
                        assert(u < old_w && t < old_h);
                    } else if t == i {
                        lemma_run_filled(v, n, 0, (y + i) as int, z as int, (x + i) as int, u - i);
                    } else {
                        lemma_run_filled(v, n, 1, z as int, (x + i) as int, (y + i) as int, t - i);
                    }
                }
            }
        } else {
            if i < w {
                w = i;
            }
            if i < h {
                h = i;
            }
            break;
        }
        i += 1;
    }
    (w, h)
}

/// Every voxel of box `b` is filled in `v`.
pub open spec fn box_filled(v: Seq<bool>, n: int, b: GridBox) -> bool {
    forall|x: int, y: int, z: int| #[trigger] b.contains(x, y, z) ==> cell_filled(v, n, x, y, z)
}

/// The box stacked on the filled voxel `(x, y, z)`: for every height `k` up to the voxel's run
/// along z, the rectangle common to the slices' diagonal extents is `w × h`; the height whose
/// `w * h * k` is largest is kept (the lowest one on ties).
fn stack_box(grid: &VoxelGrid, field: &DistanceField, x: usize, y: usize, z: usize) -> (b: GridBox)
    requires
        grid.wf(),
        field.matches(grid.voxels@, grid.size as int),
        cell_filled(grid.voxels@, grid.size as int, x as int, y as int, z as int),
    ensures
        b.proper(grid.size as int),
        b.min_x == x && b.min_y == y && b.min_z == z,
        box_filled(grid.voxels@, grid.size as int, b),
        (b.max_x - x, b.max_y - y, b.max_z - z) == stacked(grid.voxels@, grid.size as int, x as int, y as int, z as int),
{
    let ghost v = grid.voxels@;
    let ghost n = grid.size as int;
    let n_exec = grid.size;
    let base = grid.to_1d(x, y, z);
    proof {
        lemma_index_of(n, x as int, y as int, z as int);
        lemma_run_bound(v, n, 2, x as int, y as int, z as int);
        lemma_cube_fits(n);
    }
    let dz = field.z[base] as usize;
    proof {
        assert(dz == run_line(v, n, 2, x as int, y as int, z as int));
    }
    let mut mx: usize = 0;
    let mut my: usize = 0;
    let mut bx: usize = 0;
    let mut by: usize = 0;
    let mut bk: usize = 0;
    let mut best: u64 = 0;
    let mut k: usize = 0;
    while k < dz
        invariant
            grid.wf(),
            field.matches(v, n),
            v == grid.voxels@,
            n == grid.size,
            n_exec == grid.size,
            1 <= dz,
            z + dz <= n,
            x < n,
            y < n,
            dz == run_line(v, n, 2, x as int, y as int, z as int),
            k <= dz,
            k > 0 ==> 1 <= mx && x + mx <= n && 1 <= my && y + my <= n,
            k > 0 ==> forall|kk: int| 0 <= kk < k ==> #[trigger] rect_filled(v, n, x as int, y as int, z + kk, mx as int, my as int),
            k > 0 ==> 1 <= bk <= k && 1 <= bx && x + bx <= n && 1 <= by && y + by <= n,
            k == 0 ==> best == 0,
            k > 0 ==> best == bx * by * bk,
            k > 0 ==> forall|kk: int| 0 <= kk < bk ==> #[trigger] rect_filled(v, n, x as int, y as int, z + kk, bx as int, by as int),
            stack(v, n, x as int, y as int, z as int, dz as int, k as int, mx as int, my as int, best as int, bx as int, by as int, bk as int)
                == stacked(v, n, x as int, y as int, z as int),
        decreases dz - k,
    {
        proof {
            lemma_run_filled(v, n, 2, x as int, y as int, z as int, k as int);
            lemma_cube_fits(n);
        }
        let (w, h) = slice_extent(grid, field, x, y, z + k);
        let ghost old_mx = mx;
        let ghost old_my = my;
        if k == 0 || w < mx {
            mx = w;
        }
        if k == 0 || h < my {
            my = h;
        }
        proof {
            assert forall|kk: int| 0 <= kk < k + 1 implies #[trigger] rect_filled(v, n, x as int, y as int, z + kk, mx as int, my as int) by {
                if kk < k {
                    assert(rect_filled(v, n, x as int, y as int, z + kk, old_mx as int, old_my as int));
                    assert forall|u: int, t: int| 0 <= u < mx && 0 <= t < my
                        implies #[trigger] cell_filled(v, n, x + u, y + t, (z + kk) as int) by {
                        assert(u < old_mx && t < old_my);
                    }
                } else {
                    assert forall|u: int, t: int| 0 <= u < mx && 0 <= t < my
                        implies #[trigger] cell_filled(v, n, x + u, y + t, (z + kk) as int) by {
                        assert(u < w && t < h);
                    }
                }
            }
            assert(mx * my <= n * n) by (nonlinear_arith)
                requires 1 <= mx <= n, 1 <= my <= n;
            assert(mx * my * (k + 1) <= n * n * n) by (nonlinear_arith)
                requires mx * my <= n * n, 1 <= k + 1 <= n, 0 <= mx * my;
            assert(mx * my * (k + 1) >= 1) by (nonlinear_arith)
                requires 1 <= mx, 1 <= my, 0 <= k;
        }
        let volume: u64 = (mx as u64) * (my as u64) * ((k + 1) as u64);
        assert(volume >= 1);
        if volume > best {
            best = volume;
            bx = mx;
            by = my;
            bk = k + 1;
        }
        k += 1;
    }
    let b = GridBox { min_x: x, min_y: y, min_z: z, max_x: x + bx, max_y: y + by, max_z: z + bk };
    proof {
        assert forall|px: int, py: int, pz: int| #[trigger] b.contains(px, py, pz) implies cell_filled(v, n, px, py, pz) by {
            let kk = pz - z;
            assert(rect_filled(v, n, x as int, y as int, z + kk, bx as int, by as int));
            assert(cell_filled(v, n, x + (px - x), y + (py - y), (z + kk) as int));
        }
    }
    b
}

impl VoxelGrid {
    /// Empties every voxel of box `b`, leaving the others as they were.
    pub fn clear_box(&mut self, b: GridBox)
        requires
            old(self).wf(),
        ensures
            final(self).wf(),
            final(self).size == old(self).size,
            final(self).bb_min == old(self).bb_min,
            final(self).bb_max == old(self).bb_max,
            forall|j: int| 0 <= j < final(self).voxels@.len() ==> #[trigger] final(self).voxels@[j]
                == (old(self).voxels@[j] && !b.contains(coord_x(old(self).size as int, j),
                    coord_y(old(self).size as int, j), coord_z(old(self).size as int, j))),
    {
        let ghost n = self.size as int;
        let ghost v0 = self.voxels@;
        let mut j: usize = 0;
        while j < self.voxels.len()
            invariant
                self.wf(),
                self.size == n,
                self.bb_min == old(self).bb_min,
                self.bb_max == old(self).bb_max,
                self.voxels@.len() == v0.len(),
                j <= v0.len(),
                forall|i: int| 0 <= i < j ==> #[trigger] self.voxels@[i]
                    == (v0[i] && !b.contains(coord_x(n, i), coord_y(n, i), coord_z(n, i))),
                forall|i: int| j <= i < v0.len() ==> #[trigger] self.voxels@[i] == v0[i],
            decreases v0.len() - j,
        {
            let (x, y, z) = self.to_3d(j);
            if b.min_x <= x && x < b.max_x && b.min_y <= y && y < b.max_y && b.min_z <= z && z < b.max_z {
                self.voxels.set(j, false);
            }
            j += 1;
        }
    }

    /// One round of extraction: the box stacked on the first filled voxel in scan order,
    /// cleared from the grid; `None` when no voxel is filled.
    fn extract_one(&mut self) -> (r: Option<GridBox>)
        requires
            old(self).wf(),
        ensures
            final(self).wf(),
            final(self).size == old(self).size,
            final(self).bb_min == old(self).bb_min,
            final(self).bb_max == old(self).bb_max,
            match r {
                None => final(self).voxels@ == old(self).voxels@
                    && forall|j: int| 0 <= j < old(self).voxels@.len() ==> !old(self).voxels@[j],
                Some(b) => {
                    &&& b.proper(old(self).size as int)
                    &&& first_filled(old(self).voxels@, index_of(old(self).size as int, b.min_x as int, b.min_y as int, b.min_z as int))
                    &&& box_filled(old(self).voxels@, old(self).size as int, b)
                    &&& (b.max_x - b.min_x, b.max_y - b.min_y, b.max_z - b.min_z)
                        == stacked(old(self).voxels@, old(self).size as int, b.min_x as int, b.min_y as int, b.min_z as int)
                    &&& forall|j: int| 0 <= j < final(self).voxels@.len() ==> #[trigger] final(self).voxels@[j]
                        == (old(self).voxels@[j] && !b.contains(coord_x(old(self).size as int, j),
                            coord_y(old(self).size as int, j), coord_z(old(self).size as int, j)))
                },
            },
    {
        match find_first_filled(self) {
            None => None,
            Some(i) => {
                let field = DistanceField::new(self);
                let (x, y, z) = self.to_3d(i);
                let b = stack_box(self, &field, x, y, z);
                self.clear_box(b);
                Some(b)
            },
        }
    }
}

/// Whether some box of `boxes` holds the voxel at flat index `i` of a grid of side `n`.
pub open spec fn covered(boxes: Seq<GridBox>, n: int, i: int) -> bool {
    exists|k: int| 0 <= k < boxes.len() && #[trigger] boxes[k].contains(coord_x(n, i), coord_y(n, i), coord_z(n, i))
}

/// The voxel array `v` with every voxel of `boxes` cleared.
pub open spec fn minus_boxes(v: Seq<bool>, n: int, boxes: Seq<GridBox>) -> Seq<bool> {
    Seq::new(v.len(), |i: int| v[i] && !covered(boxes, n, i))
}

/// Box `k` of `boxes` is what one extraction round yields on the grid `v` once the boxes
/// before it are cleared: it is non-empty and in the grid, starts at the first filled voxel
/// in scan order, has the extent `stacked` gives there, and all its voxels are filled.
pub open spec fn extracted_at(v: Seq<bool>, n: int, boxes: Seq<GridBox>, k: int) -> bool {
    let before = minus_boxes(v, n, boxes.subrange(0, k));
    &&& boxes[k].proper(n)
    &&& first_filled(before, index_of(n, boxes[k].min_x as int, boxes[k].min_y as int, boxes[k].min_z as int))
    &&& box_filled(before, n, boxes[k])
    &&& (boxes[k].max_x - boxes[k].min_x, boxes[k].max_y - boxes[k].min_y, boxes[k].max_z - boxes[k].min_z)
        == stacked(before, n, boxes[k].min_x as int, boxes[k].min_y as int, boxes[k].min_z as int)
}

proof fn lemma_covered_push(boxes: Seq<GridBox>, b: GridBox, n: int, i: int)
    ensures
        covered(boxes.push(b), n, i) == (covered(boxes, n, i)
            || b.contains(coord_x(n, i), coord_y(n, i), coord_z(n, i))),
{
    let bs = boxes.push(b);
    if covered(boxes, n, i) {
        let k = choose|k: int| 0 <= k < boxes.len() && #[trigger] boxes[k].contains(coord_x(n, i), coord_y(n, i), coord_z(n, i));
        assert(bs[k] == boxes[k]);
    }
    if b.contains(coord_x(n, i), coord_y(n, i), coord_z(n, i)) {
        assert(bs[boxes.len() as int] == b);
    }
    if covered(bs, n, i) {
        let k = choose|k: int| 0 <= k < bs.len() && #[trigger] bs[k].contains(coord_x(n, i), coord_y(n, i), coord_z(n, i));
        if k < boxes.len() {
            assert(bs[k] == boxes[k]);
        }
    }
}

impl VoxelGrid {
    /// Greedy box occluders: up to `limit` rounds, each of which takes the first filled voxel
    /// in scan order, stacks on it the box described at `stacked`, records that box and
    /// clears it; the run-length field is rebuilt from the grid for every round. Extraction
    /// stops early once the grid is empty.
    ///
    /// The first filled voxel is a candidate chosen by position, not the one that would give
    /// the largest box: the result depends on scan order and is no optimal packing.
    pub fn get_box_occluders(&mut self, limit: usize) -> (r: Vec<GridBox>)
        requires
            old(self).wf(),
        ensures
            final(self).wf(),
            final(self).size == old(self).size,
            final(self).bb_min == old(self).bb_min,
            final(self).bb_max == old(self).bb_max,
            r@.len() <= limit,
            final(self).voxels@ == minus_boxes(old(self).voxels@, old(self).size as int, r@),
            forall|k: int| 0 <= k < r@.len() ==> #[trigger] extracted_at(old(self).voxels@, old(self).size as int, r@, k),
            r@.len() < limit ==> forall|j: int| 0 <= j < final(self).voxels@.len() ==> !final(self).voxels@[j],
    {
        let ghost v0 = self.voxels@;
        let ghost n = self.size as int;
        let mut boxes: Vec<GridBox> = Vec::new();
        let mut done = false;
        proof {
            assert(minus_boxes(v0, n, boxes@) =~= v0);
        }
        while boxes.len() < limit && !done
            invariant
                self.wf(),
                self.size == n,
                self.bb_min == old(self).bb_min,
                self.bb_max == old(self).bb_max,
                v0.len() == self.voxels@.len(),
                boxes@.len() <= limit,
                self.voxels@ == minus_boxes(v0, n, boxes@),
                forall|k: int| 0 <= k < boxes@.len() ==> #[trigger] extracted_at(v0, n, boxes@, k),
                done ==> forall|j: int| 0 <= j < self.voxels@.len() ==> !self.voxels@[j],
            decreases limit - boxes@.len() + if done { 0int } else { 1int },
        {
            let ghost before = self.voxels@;
            let ghost old_boxes = boxes@;
            match self.extract_one() {
                None => {
                    done = true;
                },
                Some(b) => {
                    boxes.push(b);
                    proof {
                        assert forall|j: int| 0 <= j < v0.len() implies #[trigger] self.voxels@[j]
                            == minus_boxes(v0, n, boxes@)[j] by {
                            lemma_covered_push(old_boxes, b, n, j);
                        }
                        assert(self.voxels@ =~= minus_boxes(v0, n, boxes@));
                        assert(boxes@.subrange(0, old_boxes.len() as int) =~= old_boxes);
                        assert forall|k: int| 0 <= k < boxes@.len() implies #[trigger] extracted_at(v0, n, boxes@, k) by {
                            if k < old_boxes.len() {
                                assert(extracted_at(v0, n, old_boxes, k));
                                assert(boxes@.subrange(0, k) =~= old_boxes.subrange(0, k));
                                assert(boxes@[k] == old_boxes[k]);
                            } else {
                                assert(boxes@[k] == b);
                            }
                        }
                    }
                },
            }
        }
        boxes
    }
}

/// Boxes extracted in different rounds share no voxel, and no voxel of any of them is
/// filled once extraction is over.
pub proof fn lemma_boxes_disjoint_and_cleared(v: Seq<bool>, n: int, boxes: Seq<GridBox>, j: int, k: int, x: int, y: int, z: int)
    requires
        n >= 1,
        v.len() == cube(n),
        forall|m: int| 0 <= m < boxes.len() ==> #[trigger] extracted_at(v, n, boxes, m),
        0 <= j < k < boxes.len(),
    ensures
        !(boxes[j].contains(x, y, z) && boxes[k].contains(x, y, z)),
        boxes[k].contains(x, y, z) ==> in_grid(n, x, y, z) && v[index_of(n, x, y, z)]
            && !minus_boxes(v, n, boxes)[index_of(n, x, y, z)],
{
    if boxes[k].contains(x, y, z) {
        assert(extracted_at(v, n, boxes, k));
        let before = minus_boxes(v, n, boxes.subrange(0, k));
        assert(cell_filled(before, n, x, y, z));
        let i = index_of(n, x, y, z);
        lemma_index_of(n, x, y, z);
        if boxes[j].contains(x, y, z) {
            assert(boxes.subrange(0, k)[j] == boxes[j]);
            assert(boxes.subrange(0, k)[j].contains(coord_x(n, i), coord_y(n, i), coord_z(n, i)));
        }
        assert(boxes[k].contains(coord_x(n, i), coord_y(n, i), coord_z(n, i)));
    }
}

} // verus!
