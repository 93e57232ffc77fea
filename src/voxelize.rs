use vstd::prelude::*;
use vstd::arithmetic::div_mod::lemma_fundamental_div_mod;
use crate::grid::{VoxelGrid, Point3, MAX_GRID_SIZE, in_grid, cube, coord_x, coord_y, coord_z, lemma_index_of, lemma_coords_of};
use crate::atoms::{Atom, MAX_COORD, all_within, lo, hi, shifted, center_atoms, bounding_box, is_bounding_box, lemma_lo_hi_range};
use crate::classify::classified;

verus! {

/// Largest magnitude of a coordinate that voxelization works with, in fixed-point units.
pub const WORLD_LIMIT: i64 = 0x800_0000;

/// `n` times the offset, along one axis, from an atom centre `c` to the plane of voxel corners
/// `t` of a grid that cuts `[lo, hi]` into `n` equal parts. Scaling by `n` keeps it whole.
pub open spec fn corner_offset(n: int, lo: int, hi: int, t: int, c: int) -> int {
    n * lo + t * (hi - lo) - n * c
}

/// The voxel corner `(tx, ty, tz)` lies in the closed ball of atom `a`.
pub open spec fn corner_inside(n: int, lo: Point3, hi: Point3, a: Atom, tx: int, ty: int, tz: int) -> bool {
    let dx = corner_offset(n, lo.x as int, hi.x as int, tx, a.x as int);
    let dy = corner_offset(n, lo.y as int, hi.y as int, ty, a.y as int);
    let dz = corner_offset(n, lo.z as int, hi.z as int, tz, a.z as int);
    dx * dx + dy * dy + dz * dz <= (n * a.radius) * (n * a.radius)
}

/// All eight corners of voxel `(x, y, z)` lie in the ball of atom `a`.
pub open spec fn voxel_inside(n: int, lo: Point3, hi: Point3, a: Atom, x: int, y: int, z: int) -> bool {
    &&& corner_inside(n, lo, hi, a, x, y, z)
    &&& corner_inside(n, lo, hi, a, x + 1, y, z)
    &&& corner_inside(n, lo, hi, a, x, y + 1, z)
    &&& corner_inside(n, lo, hi, a, x + 1, y + 1, z)
    &&& corner_inside(n, lo, hi, a, x, y, z + 1)
    &&& corner_inside(n, lo, hi, a, x + 1, y, z + 1)
    &&& corner_inside(n, lo, hi, a, x, y + 1, z + 1)
    &&& corner_inside(n, lo, hi, a, x + 1, y + 1, z + 1)
}

/// The world box `[lo, hi]` has positive extent on every axis and lies within `WORLD_LIMIT`.
pub open spec fn box_ok(lo: Point3, hi: Point3) -> bool {
    &&& -WORLD_LIMIT <= lo.x < hi.x <= WORLD_LIMIT
    &&& -WORLD_LIMIT <= lo.y < hi.y <= WORLD_LIMIT
    &&& -WORLD_LIMIT <= lo.z < hi.z <= WORLD_LIMIT
}

/// The atom lies within `WORLD_LIMIT`.
pub open spec fn atom_ok(a: Atom) -> bool {
    &&& -WORLD_LIMIT <= a.x <= WORLD_LIMIT
    &&& -WORLD_LIMIT <= a.y <= WORLD_LIMIT
    &&& -WORLD_LIMIT <= a.z <= WORLD_LIMIT
    &&& 0 <= a.radius <= WORLD_LIMIT
}

/// First voxel index along one axis that the ball `[c - r, c + r]` may reach: the floor of
/// its lower end in voxel units, clamped at 0.
pub open spec fn span_lo(n: int, lo: int, hi: int, c: int, r: int) -> int {
    let num = n * (c - r - lo);
    if num <= 0 {
        0
    } else {
        let down = num / (hi - lo);
        if down < n { down } else { n }
    }
}

/// One past the last voxel index along one axis that the ball may reach: the ceiling of its
/// upper end in voxel units, clamped to `[0, n]`.
pub open spec fn span_hi(n: int, lo: int, hi: int, c: int, r: int) -> int {
    let num = n * (c + r - lo);
    if num <= 0 {
        0
    } else {
        let up = (num + (hi - lo) - 1) / (hi - lo);
        if up < n { up } else { n }
    }
}

/// Which way `VoxelGrid::snap` rounds a position that falls inside a voxel.
#[derive(Clone, Copy, Debug, PartialEq, Eq, Structural)]
pub enum Round {
    Floor,
    Ceil,
}

/// Position `c` along one axis of a grid that cuts `[lo, hi]` into `n` voxels, in voxel units,
/// rounded as asked.
pub open spec fn snap_axis(n: int, lo: int, hi: int, c: int, round: Round) -> int {
    let num = n * (c - lo);
    match round {
        Round::Floor => num / (hi - lo),
        Round::Ceil => -((-num) / (hi - lo)),
    }
}

/// `a / b` rounded down, for `b > 0`.
fn floor_div(a: i64, b: i64) -> (q: i64)
    requires
        b > 0,
        -0x1000_0000_0000 <= a <= 0x1000_0000_0000,
        b <= 0x1000_0000_0000,
    ensures
        q == a as int / b as int,
        a >= 0 ==> 0 <= q <= a,
        a < 0 ==> a <= q < 0,
{
    if a >= 0 {
        proof {
            assert(a / b <= a) by (nonlinear_arith)
                requires a >= 0, b >= 1;
        }
        a / b
    } else {
        let m = (-a + b - 1) / b;
        proof {
            let ai = a as int;
            let bi = b as int;
            lemma_fundamental_div_mod(-ai + bi - 1, bi);
            lemma_fundamental_div_mod(ai, bi);
            let q = ai / bi;
            let r = ai % bi;
            assert(-m == q) by (nonlinear_arith)
                requires
                    -ai + bi - 1 == bi * m + (-ai + bi - 1) % bi,
                    0 <= (-ai + bi - 1) % bi < bi,
                    ai == bi * q + r,
                    0 <= r < bi,
                    bi > 0;
            assert(a <= q < 0) by (nonlinear_arith)
                requires ai == bi * q + r, 0 <= r < bi, bi >= 1, ai < 0, q == ai / bi, a == ai;
        }
        -m
    }
}

/// A square at most `R * R`, with `R >= 0`, has its root in `[-R, R]`.
proof fn lemma_square_bound(a: int, s: int, rr: int)
    requires
        rr >= 0,
        a * a <= s,
        s <= rr * rr,
    ensures
        -rr <= a <= rr,
{
    if a > rr {
        assert(a * a > rr * rr) by (nonlinear_arith)
            requires a > rr, rr >= 0;
    }
    if a < -rr {
        assert(a * a > rr * rr) by (nonlinear_arith)
            requires a < -rr, rr >= 0;
    }
}

/// Along one axis, a voxel whose two corner planes lie within the ball lies within the span.
proof fn lemma_span_axis(n: int, lo: int, hi: int, c: int, r: int, t: int)
    requires
        n >= 1,
        lo < hi,
        r >= 0,
        0 <= t < n,
        -(n * r) <= corner_offset(n, lo, hi, t, c),
        corner_offset(n, lo, hi, t + 1, c) <= n * r,
    ensures
        span_lo(n, lo, hi, c, r) <= t < span_hi(n, lo, hi, c, r),
{
    let d = hi - lo;
    let num_lo = n * (c - r - lo);
    let num_hi = n * (c + r - lo);
    assert(t * d >= num_lo) by (nonlinear_arith)
        requires -(n * r) <= n * lo + t * (hi - lo) - n * c, d == hi - lo, num_lo == n * (c - r - lo);
    assert((t + 1) * d <= num_hi) by (nonlinear_arith)
        requires n * lo + (t + 1) * (hi - lo) - n * c <= n * r, d == hi - lo, num_hi == n * (c + r - lo);
    if num_lo > 0 {
        lemma_fundamental_div_mod(num_lo, d);
        let q = num_lo / d;
        assert(q <= t) by (nonlinear_arith)
            requires num_lo == d * q + num_lo % d, 0 <= num_lo % d, t * d >= num_lo, d > 0;
    }
    assert(num_hi >= d) by (nonlinear_arith)
        requires (t + 1) * d <= num_hi, t >= 0, d > 0;
    let m = num_hi + d - 1;
    lemma_fundamental_div_mod(m, d);
    let q = m / d;
    assert(q >= t + 1) by (nonlinear_arith)
        requires m == d * q + m % d, m % d < d, (t + 1) * d <= num_hi, m == num_hi + d - 1, d > 0;
}

/// A voxel inside an atom lies within the atom's span on every axis.
proof fn lemma_span(n: int, lo: Point3, hi: Point3, a: Atom, x: int, y: int, z: int)
    requires
        1 <= n,
        box_ok(lo, hi),
        atom_ok(a),
        in_grid(n, x, y, z),
        voxel_inside(n, lo, hi, a, x, y, z),
    ensures
        span_lo(n, lo.x as int, hi.x as int, a.x as int, a.radius as int) <= x
            < span_hi(n, lo.x as int, hi.x as int, a.x as int, a.radius as int),
        span_lo(n, lo.y as int, hi.y as int, a.y as int, a.radius as int) <= y
            < span_hi(n, lo.y as int, hi.y as int, a.y as int, a.radius as int),
        span_lo(n, lo.z as int, hi.z as int, a.z as int, a.radius as int) <= z
            < span_hi(n, lo.z as int, hi.z as int, a.z as int, a.radius as int),
{
    let rr = n * a.radius;
    assert(rr >= 0) by (nonlinear_arith)
        requires n >= 1, a.radius >= 0, rr == n * a.radius;
    let (bx0, bx1) = (lo.x as int, hi.x as int);
    let (by0, by1) = (lo.y as int, hi.y as int);
    let (bz0, bz1) = (lo.z as int, hi.z as int);
    let dx0 = corner_offset(n, bx0, bx1, x, a.x as int);
    let dx1 = corner_offset(n, bx0, bx1, x + 1, a.x as int);
    let dy0 = corner_offset(n, by0, by1, y, a.y as int);
    let dy1 = corner_offset(n, by0, by1, y + 1, a.y as int);
    let dz0 = corner_offset(n, bz0, bz1, z, a.z as int);
    let dz1 = corner_offset(n, bz0, bz1, z + 1, a.z as int);
    assert(dx0 * dx0 >= 0 && dx1 * dx1 >= 0 && dy0 * dy0 >= 0 && dy1 * dy1 >= 0 && dz0 * dz0 >= 0 && dz1 * dz1 >= 0)
        by (nonlinear_arith);
    assert(corner_inside(n, lo, hi, a, x, y, z));
    assert(corner_inside(n, lo, hi, a, x + 1, y + 1, z + 1));
    lemma_square_bound(dx0, dx0 * dx0 + dy0 * dy0 + dz0 * dz0, rr);
    lemma_square_bound(dy0, dx0 * dx0 + dy0 * dy0 + dz0 * dz0, rr);
    lemma_square_bound(dz0, dx0 * dx0 + dy0 * dy0 + dz0 * dz0, rr);
    lemma_square_bound(dx1, dx1 * dx1 + dy1 * dy1 + dz1 * dz1, rr);
    lemma_square_bound(dy1, dx1 * dx1 + dy1 * dy1 + dz1 * dz1, rr);
    lemma_square_bound(dz1, dx1 * dx1 + dy1 * dy1 + dz1 * dz1, rr);
    lemma_span_axis(n, bx0, bx1, a.x as int, a.radius as int, x);
    lemma_span_axis(n, by0, by1, a.y as int, a.radius as int, y);
    lemma_span_axis(n, bz0, bz1, a.z as int, a.radius as int, z);
}

/// `corner_offset` computed in 128 bits, where it always fits.
fn offset(n: usize, lo: i64, hi: i64, t: usize, c: i64) -> (o: i128)
    requires
        1 <= n <= MAX_GRID_SIZE,
        t <= n,
        -WORLD_LIMIT <= lo < hi <= WORLD_LIMIT,
        -WORLD_LIMIT <= c <= WORLD_LIMIT,
    ensures
        o == corner_offset(n as int, lo as int, hi as int, t as int, c as int),
        -0x100_0000_0000 <= o <= 0x100_0000_0000,
{
    let ni = n as i128;
    let d = (hi as i128) - (lo as i128);
    proof {
        assert(-0x20_0000_0000 <= ni * lo <= 0x20_0000_0000) by (nonlinear_arith)
            requires 1 <= ni <= 1024, -0x800_0000 <= lo <= 0x800_0000;
        assert(-0x20_0000_0000 <= ni * c <= 0x20_0000_0000) by (nonlinear_arith)
            requires 1 <= ni <= 1024, -0x800_0000 <= c <= 0x800_0000;
        assert(0 <= t * d <= 0x40_0000_0000) by (nonlinear_arith)
            requires 0 <= t <= 1024, 0 < d <= 0x1000_0000;
    }
    ni * (lo as i128) + (t as i128) * d - ni * (c as i128)
}

/// Whether corner `(tx, ty, tz)` of the grid `n`, `[lo, hi]` lies in the ball of `a`.
fn corner_test(n: usize, lo: Point3, hi: Point3, a: Atom, tx: usize, ty: usize, tz: usize) -> (r: bool)
    requires
        1 <= n <= MAX_GRID_SIZE,
        tx <= n && ty <= n && tz <= n,
        box_ok(lo, hi),
        atom_ok(a),
    ensures
        r == corner_inside(n as int, lo, hi, a, tx as int, ty as int, tz as int),
{
    let dx = offset(n, lo.x, hi.x, tx, a.x);
    let dy = offset(n, lo.y, hi.y, ty, a.y);
    let dz = offset(n, lo.z, hi.z, tz, a.z);
    proof {
        assert(0 <= n * a.radius <= 0x20_0000_0000) by (nonlinear_arith)
            requires 1 <= n <= 1024, 0 <= a.radius <= 0x800_0000;
    }
    let rr = (n as i128) * (a.radius as i128);
    proof {
        assert(0 <= dx * dx <= 0x1_0000_0000_0000_0000_0000) by (nonlinear_arith)
            requires -0x100_0000_0000 <= dx <= 0x100_0000_0000;
        assert(0 <= dy * dy <= 0x1_0000_0000_0000_0000_0000) by (nonlinear_arith)
            requires -0x100_0000_0000 <= dy <= 0x100_0000_0000;
        assert(0 <= dz * dz <= 0x1_0000_0000_0000_0000_0000) by (nonlinear_arith)
            requires -0x100_0000_0000 <= dz <= 0x100_0000_0000;
        assert(0 <= rr <= 0x20_0000_0000) by (nonlinear_arith)
            requires 1 <= n <= 1024, 0 <= a.radius <= 0x800_0000, rr == n * a.radius;
        assert(0 <= rr * rr <= 0x400_0000_0000_0000_0000) by (nonlinear_arith)
            requires 0 <= rr <= 0x20_0000_0000;
    }
    dx * dx + dy * dy + dz * dz <= rr * rr
}

/// Whether all eight corners of voxel `(x, y, z)` lie in the ball of `a`.
fn voxel_test(n: usize, lo: Point3, hi: Point3, a: Atom, x: usize, y: usize, z: usize) -> (r: bool)
    requires
        1 <= n <= MAX_GRID_SIZE,
        x < n && y < n && z < n,
        box_ok(lo, hi),
        atom_ok(a),
    ensures
        r == voxel_inside(n as int, lo, hi, a, x as int, y as int, z as int),
{
    corner_test(n, lo, hi, a, x, y, z) && corner_test(n, lo, hi, a, x + 1, y, z)
        && corner_test(n, lo, hi, a, x, y + 1, z) && corner_test(n, lo, hi, a, x + 1, y + 1, z)
        && corner_test(n, lo, hi, a, x, y, z + 1) && corner_test(n, lo, hi, a, x + 1, y, z + 1)
        && corner_test(n, lo, hi, a, x, y + 1, z + 1) && corner_test(n, lo, hi, a, x + 1, y + 1, z + 1)
}

/// `snap_axis` computed in 64 bits.
fn snap_coord(n: usize, lo: i64, hi: i64, c: i64, round: Round) -> (r: i64)
    requires
        1 <= n <= MAX_GRID_SIZE,
        -WORLD_LIMIT <= lo < hi <= WORLD_LIMIT,
        -WORLD_LIMIT <= c <= WORLD_LIMIT,
    ensures
        r == snap_axis(n as int, lo as int, hi as int, c as int, round),
{
    proof {
        assert(-0x100_0000_0000 <= n * (c - lo) <= 0x100_0000_0000) by (nonlinear_arith)
            requires 1 <= n <= 1024, -0x1000_0000 <= c - lo <= 0x1000_0000;
    }
    let num = (n as i64) * (c - lo);
    match round {
        Round::Floor => floor_div(num, hi - lo),
        Round::Ceil => -floor_div(-num, hi - lo),
    }
}

/// The range of voxel indices along one axis that the ball `[c - r, c + r]` may reach.
fn span(n: usize, lo: i64, hi: i64, c: i64, r: i64) -> (s: (usize, usize))
    requires
        1 <= n <= MAX_GRID_SIZE,
        -WORLD_LIMIT <= lo < hi <= WORLD_LIMIT,
        -WORLD_LIMIT <= c <= WORLD_LIMIT,
        0 <= r <= WORLD_LIMIT,
    ensures
        s.0 == span_lo(n as int, lo as int, hi as int, c as int, r as int),
        s.1 == span_hi(n as int, lo as int, hi as int, c as int, r as int),
        s.0 <= n,
        s.1 <= n,
{
    let ni = n as i64;
    let d = hi - lo;
    proof {
        assert(-0x80_0000_0000 <= ni * (c - r - lo) <= 0x80_0000_0000) by (nonlinear_arith)
            requires 1 <= ni <= 1024, -0x2000_0000 <= c - r - lo <= 0x2000_0000;
        assert(-0x80_0000_0000 <= ni * (c + r - lo) <= 0x80_0000_0000) by (nonlinear_arith)
            requires 1 <= ni <= 1024, -0x2000_0000 <= c + r - lo <= 0x2000_0000;
    }
    let num_lo = ni * (c - r - lo);
    let num_hi = ni * (c + r - lo);
    let first: usize = if num_lo <= 0 {
        0
    } else {
        let down = num_lo / d;
        if down < ni { down as usize } else { n }
    };
    let last: usize = if num_hi <= 0 {
        0
    } else {
        let up = (num_hi + d - 1) / d;
        if up < ni { up as usize } else { n }
    };
    (first, last)
}

/// The voxels of the grid `n`, `[lo, hi]` filled by voxelizing `atoms`: those all eight of
/// whose corners lie in the ball of one atom.
pub open spec fn atom_voxels(n: int, lo: Point3, hi: Point3, atoms: Seq<Atom>) -> Seq<bool> {
    Seq::new(cube(n) as nat, |j: int| exists|k: int| 0 <= k < atoms.len()
        && #[trigger] voxel_inside(n, lo, hi, atoms[k], coord_x(n, j), coord_y(n, j), coord_z(n, j)))
}

impl VoxelGrid {
    /// World position (fixed point) to voxel space: each coordinate measured from `bb_min`
    /// in voxel sizes and rounded as asked. Positions outside the grid's box give indices
    /// outside `[0, size)`.
    pub fn snap(&self, p: Point3, round: Round) -> (r: (i64, i64, i64))
        requires
            1 <= self.size <= MAX_GRID_SIZE,
            box_ok(self.bb_min, self.bb_max),
            -WORLD_LIMIT <= p.x <= WORLD_LIMIT,
            -WORLD_LIMIT <= p.y <= WORLD_LIMIT,
            -WORLD_LIMIT <= p.z <= WORLD_LIMIT,
        ensures
            r.0 == snap_axis(self.size as int, self.bb_min.x as int, self.bb_max.x as int, p.x as int, round),
            r.1 == snap_axis(self.size as int, self.bb_min.y as int, self.bb_max.y as int, p.y as int, round),
            r.2 == snap_axis(self.size as int, self.bb_min.z as int, self.bb_max.z as int, p.z as int, round),
    {
        let x = snap_coord(self.size, self.bb_min.x, self.bb_max.x, p.x, round);
        let y = snap_coord(self.size, self.bb_min.y, self.bb_max.y, p.y, round);
        let z = snap_coord(self.size, self.bb_min.z, self.bb_max.z, p.z, round);
        (x, y, z)
    }

    /// Fills every voxel of the grid whose eight corners lie in the ball of `a`; only voxels
    /// within the ball's span on each axis are tested.
    pub fn fill_atom(&mut self, a: Atom)
        requires
            old(self).wf(),
            box_ok(old(self).bb_min, old(self).bb_max),
            atom_ok(a),
        ensures
            final(self).wf(),
            final(self).size == old(self).size,
            final(self).bb_min == old(self).bb_min,
            final(self).bb_max == old(self).bb_max,
            forall|j: int| 0 <= j < final(self).voxels@.len() ==> #[trigger] final(self).voxels@[j]
                == (old(self).voxels@[j] || voxel_inside(old(self).size as int, old(self).bb_min, old(self).bb_max, a,
                    coord_x(old(self).size as int, j), coord_y(old(self).size as int, j), coord_z(old(self).size as int, j))),
    {
        let n = self.size;
        let ghost ni = n as int;
        let lo = self.bb_min;
        let hi = self.bb_max;
        let ghost v0 = self.voxels@;
        let (x0, x1) = span(n, lo.x, hi.x, a.x, a.radius);
        let (y0, y1) = span(n, lo.y, hi.y, a.y, a.radius);
        let (z0, z1) = span(n, lo.z, hi.z, a.z, a.radius);
        proof {
            assert forall|j: int| 0 <= j < v0.len() && #[trigger] voxel_inside(ni, lo, hi, a, coord_x(ni, j), coord_y(ni, j), coord_z(ni, j))
                implies x0 <= coord_x(ni, j) < x1 && y0 <= coord_y(ni, j) < y1 && z0 <= coord_z(ni, j) < z1 by {
                lemma_coords_of(ni, j);
                lemma_span(ni, lo, hi, a, coord_x(ni, j), coord_y(ni, j), coord_z(ni, j));
            }
        }
        let mut x = x0;
        while x < x1
            invariant
                self.wf(),
                self.size == n,
                ni == n,
                self.bb_min == lo,
                self.bb_max == hi,
                box_ok(lo, hi),
                atom_ok(a),
                v0.len() == self.voxels@.len(),
                x0 <= x <= x1 || x == x0,
                x1 <= n,
                y1 <= n,
                z1 <= n,
                forall|j: int| 0 <= j < v0.len() && #[trigger] voxel_inside(ni, lo, hi, a, coord_x(ni, j), coord_y(ni, j), coord_z(ni, j))
                    ==> x0 <= coord_x(ni, j) < x1 && y0 <= coord_y(ni, j) < y1 && z0 <= coord_z(ni, j) < z1,
                forall|j: int| 0 <= j < v0.len() ==> #[trigger] self.voxels@[j] == (v0[j]
                    || (voxel_inside(ni, lo, hi, a, coord_x(ni, j), coord_y(ni, j), coord_z(ni, j)) && coord_x(ni, j) < x)),
            decreases x1 - x,
        {
            let mut y = y0;
            while y < y1
                invariant
                    self.wf(),
                    self.size == n,
                    ni == n,
                    self.bb_min == lo,
                    self.bb_max == hi,
                    box_ok(lo, hi),
                    atom_ok(a),
                    v0.len() == self.voxels@.len(),
                    x0 <= x < x1,
                    y0 <= y <= y1 || y == y0,
                    x1 <= n,
                    y1 <= n,
                    z1 <= n,
                    forall|j: int| 0 <= j < v0.len() && #[trigger] voxel_inside(ni, lo, hi, a, coord_x(ni, j), coord_y(ni, j), coord_z(ni, j))
                        ==> x0 <= coord_x(ni, j) < x1 && y0 <= coord_y(ni, j) < y1 && z0 <= coord_z(ni, j) < z1,
                    forall|j: int| 0 <= j < v0.len() ==> #[trigger] self.voxels@[j] == (v0[j]
                        || (voxel_inside(ni, lo, hi, a, coord_x(ni, j), coord_y(ni, j), coord_z(ni, j))
                            && (coord_x(ni, j) < x || (coord_x(ni, j) == x && coord_y(ni, j) < y)))),
                decreases y1 - y,
            {
                let mut z = z0;
                while z < z1
                    invariant
                        self.wf(),
                        self.size == n,
                        ni == n,
                        self.bb_min == lo,
                        self.bb_max == hi,
                        box_ok(lo, hi),
                        atom_ok(a),
                        v0.len() == self.voxels@.len(),
                        x0 <= x < x1,
                        y0 <= y < y1,
                        z0 <= z <= z1 || z == z0,
                        x1 <= n,
                        y1 <= n,
                        z1 <= n,
                        forall|j: int| 0 <= j < v0.len() && #[trigger] voxel_inside(ni, lo, hi, a, coord_x(ni, j), coord_y(ni, j), coord_z(ni, j))
                            ==> x0 <= coord_x(ni, j) < x1 && y0 <= coord_y(ni, j) < y1 && z0 <= coord_z(ni, j) < z1,
                        forall|j: int| 0 <= j < v0.len() ==> #[trigger] self.voxels@[j] == (v0[j]
                            || (voxel_inside(ni, lo, hi, a, coord_x(ni, j), coord_y(ni, j), coord_z(ni, j))
                                && (coord_x(ni, j) < x || (coord_x(ni, j) == x && coord_y(ni, j) < y)
                                    || (coord_x(ni, j) == x && coord_y(ni, j) == y && coord_z(ni, j) < z)))),
                    decreases z1 - z,
                {
                    let i = self.to_1d(x, y, z);
                    let ghost before = self.voxels@;
                    if voxel_test(n, lo, hi, a, x, y, z) {
                        self.voxels.set(i, true);
                    }
                    proof {
                        lemma_index_of(ni, x as int, y as int, z as int);
                        assert forall|j: int| 0 <= j < v0.len() implies #[trigger] self.voxels@[j] == (v0[j]
                            || (voxel_inside(ni, lo, hi, a, coord_x(ni, j), coord_y(ni, j), coord_z(ni, j))
                                && (coord_x(ni, j) < x || (coord_x(ni, j) == x && coord_y(ni, j) < y)
                                    || (coord_x(ni, j) == x && coord_y(ni, j) == y && coord_z(ni, j) < z + 1)))) by {
                            lemma_coords_of(ni, j);
                            assert(before[j] == (v0[j]
                                || (voxel_inside(ni, lo, hi, a, coord_x(ni, j), coord_y(ni, j), coord_z(ni, j))
                                    && (coord_x(ni, j) < x || (coord_x(ni, j) == x && coord_y(ni, j) < y)
                                        || (coord_x(ni, j) == x && coord_y(ni, j) == y && coord_z(ni, j) < z)))));
                        }
                    }
                    z += 1;
                }
                y += 1;
            }
            x += 1;
        }
    }
}

/// Why no grid can be built.
#[derive(Clone, Copy, Debug, PartialEq, Eq, Structural)]
pub enum GridError {
    /// There are no atoms, or their bounding box is flat along some axis.
    NoGeometry,
}

/// `t` is `s` translated by `-c`, where `c` is the centre of the bounding box of `s`
/// rounded down to a whole unit on every axis.
pub open spec fn is_centring(s: Seq<Atom>, t: Seq<Atom>, c: Point3) -> bool {
    &&& t.len() == s.len()
    &&& forall|axis: int| 0 <= axis < 3 ==> #[trigger] (2 * c.axis(axis)) <= lo(s, axis) + hi(s, axis) <= 2 * c.axis(axis) + 1
    &&& forall|i: int| 0 <= i < s.len() ==> #[trigger] t[i] == shifted(s[i], c)
}

/// The bounding box of the atoms is flat along some axis.
pub open spec fn flat(s: Seq<Atom>) -> bool {
    exists|axis: int| 0 <= axis < 3 && #[trigger] lo(s, axis) == hi(s, axis)
}

impl VoxelGrid {
    /// Voxel grid builder: centres the atoms (see `center_atoms`), spans a grid of side `size`
    /// over their bounding box and fills each voxel whose eight corners lie in one atom's
    /// ball. Voxels that only cross a sphere's surface stay empty, and an atom smaller than a
    /// voxel may fill none.
    pub fn voxelize(atoms: &mut Vec<Atom>, size: usize) -> (r: Result<VoxelGrid, GridError>)
        requires
            1 <= size <= MAX_GRID_SIZE,
            all_within(old(atoms)@, MAX_COORD as int),
        ensures
            final(atoms)@.len() == old(atoms)@.len(),
            old(atoms)@.len() == 0 ==> final(atoms)@ == old(atoms)@,
            old(atoms)@.len() > 0 ==> exists|c: Point3| #[trigger] is_centring(old(atoms)@, final(atoms)@, c),
            r.is_err() <==> (old(atoms)@.len() == 0 || flat(final(atoms)@)),
            r.is_err() ==> r == Err::<VoxelGrid, GridError>(GridError::NoGeometry),
            match r {
                Err(_) => true,
                Ok(g) => {
                    &&& g.wf()
                    &&& g.size == size
                    &&& forall|axis: int| 0 <= axis < 3 ==> #[trigger] g.bb_min.axis(axis) == lo(final(atoms)@, axis)
                        && g.bb_max.axis(axis) == hi(final(atoms)@, axis)
                    &&& forall|axis: int| 0 <= axis < 3 ==> #[trigger] g.bb_min.axis(axis) < g.bb_max.axis(axis)
                        && 0 <= g.bb_min.axis(axis) + g.bb_max.axis(axis) <= 1
                    &&& g.voxels@ == atom_voxels(size as int, g.bb_min, g.bb_max, final(atoms)@)
                },
            },
    {
        let ghost s0 = atoms@;
        let c = center_atoms(atoms);
        if c.is_none() {
            return Err(GridError::NoGeometry);
        }
        proof {
            assert(is_centring(s0, atoms@, c.unwrap()));
        }
        let found = bounding_box(atoms);
        let b = found.unwrap();
        let ghost t = atoms@;
        proof {
            assert(is_bounding_box(t, b));
            assert(b.min.axis(0) == lo(t, 0) && b.max.axis(0) == hi(t, 0));
            assert(b.min.axis(1) == lo(t, 1) && b.max.axis(1) == hi(t, 1));
            assert(b.min.axis(2) == lo(t, 2) && b.max.axis(2) == hi(t, 2));
        }
        if b.min.x == b.max.x || b.min.y == b.max.y || b.min.z == b.max.z {
            proof {
                if b.min.x == b.max.x {
                    assert(lo(t, 0) == hi(t, 0));
                } else if b.min.y == b.max.y {
                    assert(lo(t, 1) == hi(t, 1));
                } else {
                    assert(lo(t, 2) == hi(t, 2));
                }
            }
            return Err(GridError::NoGeometry);
        }
        proof {
            lemma_lo_hi_range(t, 0, MAX_COORD as int * 4);
            lemma_lo_hi_range(t, 1, MAX_COORD as int * 4);
            lemma_lo_hi_range(t, 2, MAX_COORD as int * 4);
            assert(0 <= lo(t, 0) + hi(t, 0) <= 1 && lo(t, 0) <= hi(t, 0));
            assert(0 <= lo(t, 1) + hi(t, 1) <= 1 && lo(t, 1) <= hi(t, 1));
            assert(0 <= lo(t, 2) + hi(t, 2) <= 1 && lo(t, 2) <= hi(t, 2));
            assert(!flat(t));
        }
        let mut g = VoxelGrid::empty(size);
        g.bb_min = b.min;
        g.bb_max = b.max;
        let ghost n = size as int;
        proof {
            assert(g.voxels@ =~= atom_voxels(n, b.min, b.max, t.subrange(0, 0)));
        }
        let mut k: usize = 0;
        while k < atoms.len()
            invariant
                g.wf(),
                g.size == size,
                n == size,
                g.bb_min == b.min,
                g.bb_max == b.max,
                box_ok(b.min, b.max),
                t == atoms@,
                all_within(t, MAX_COORD as int * 4),
                k <= t.len(),
                g.voxels@ == atom_voxels(n, b.min, b.max, t.subrange(0, k as int)),
            decreases t.len() - k,
        {
            let a = atoms[k];
            proof {
                assert(t[k as int].within(MAX_COORD as int * 4));
            }
            let ghost before = g.voxels@;
            g.fill_atom(a);
            proof {
                let p = t.subrange(0, k as int);
                let q = t.subrange(0, k + 1);
                assert forall|j: int| 0 <= j < cube(n) implies #[trigger] g.voxels@[j]
                    == atom_voxels(n, b.min, b.max, q)[j] by {
                    let (x, y, z) = (coord_x(n, j), coord_y(n, j), coord_z(n, j));
                    if before[j] {
                        let kk = choose|kk: int| 0 <= kk < p.len() && #[trigger] voxel_inside(n, b.min, b.max, p[kk], x, y, z);
                        assert(q[kk] == p[kk]);
                    }
                    if voxel_inside(n, b.min, b.max, a, x, y, z) {
                        assert(q[k as int] == a);
                    }
                    if atom_voxels(n, b.min, b.max, q)[j] {
                        let kk = choose|kk: int| 0 <= kk < q.len() && #[trigger] voxel_inside(n, b.min, b.max, q[kk], x, y, z);
                        if kk < k {
                            assert(p[kk] == q[kk]);
                        }
                    }
                }
                assert(g.voxels@ =~= atom_voxels(n, b.min, b.max, q));
            }
            k += 1;
        }
        proof {
            assert(t.subrange(0, t.len() as int) =~= t);
        }
        Ok(g)
    }

    /// Builds the occupancy grid of the atoms: voxelization (see `voxelize`) followed by
    /// interior classification (see `classify_interior`).
    pub fn new(atoms: &mut Vec<Atom>, size: usize) -> (r: Result<VoxelGrid, GridError>)
        requires
            1 <= size <= MAX_GRID_SIZE,
            all_within(old(atoms)@, MAX_COORD as int),
        ensures
            final(atoms)@.len() == old(atoms)@.len(),
            old(atoms)@.len() == 0 ==> final(atoms)@ == old(atoms)@,
            old(atoms)@.len() > 0 ==> exists|c: Point3| #[trigger] is_centring(old(atoms)@, final(atoms)@, c),
            r.is_err() <==> (old(atoms)@.len() == 0 || flat(final(atoms)@)),
            r.is_err() ==> r == Err::<VoxelGrid, GridError>(GridError::NoGeometry),
            match r {
                Err(_) => true,
                Ok(g) => {
                    &&& g.wf()
                    &&& g.size == size
                    &&& forall|axis: int| 0 <= axis < 3 ==> #[trigger] g.bb_min.axis(axis) == lo(final(atoms)@, axis)
                        && g.bb_max.axis(axis) == hi(final(atoms)@, axis)
                    &&& g.voxels@ == classified(atom_voxels(size as int, g.bb_min, g.bb_max, final(atoms)@), size as int)
                },
            },
    {
        let r = VoxelGrid::voxelize(atoms, size);
        if r.is_err() {
            return r;
        }
        let mut g = r.unwrap();
        g.classify_interior();
        Ok(g)
    }
}

} // verus!
