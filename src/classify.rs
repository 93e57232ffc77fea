use vstd::prelude::*;
use vstd::set_lib::{lemma_len_subset, set_int_range, lemma_int_range};
use crate::grid::{VoxelGrid, index_of, in_grid, cube, coord_x, coord_y, coord_z, lemma_index_of, lemma_coords_of, lemma_cube_fits};

verus! {

/// A voxel position; it may lie outside the grid.
pub type Pos = (int, int, int);

/// The coordinates of the voxel at flat index `i` of a grid of side `n`.
pub open spec fn pos_of(n: int, i: int) -> Pos {
    (coord_x(n, i), coord_y(n, i), coord_z(n, i))
}

/// Corner-diagonal neighbours: every coordinate differs by exactly one.
pub open spec fn adjacent(p: Pos, q: Pos) -> bool {
    &&& (p.0 - q.0 == 1 || q.0 - p.0 == 1)
    &&& (p.1 - q.1 == 1 || q.1 - p.1 == 1)
    &&& (p.2 - q.2 == 1 || q.2 - p.2 == 1)
}

/// The `d`-th of the eight corner-diagonal offsets, for `0 <= d < 8`.
pub open spec fn diag(d: int) -> Pos {
    (
        if d % 2 == 0 { 1 } else { -1 },
        if (d / 2) % 2 == 0 { 1 } else { -1 },
        if d / 4 == 0 { 1 } else { -1 },
    )
}

/// `p` moved by the `d`-th diagonal offset.
pub open spec fn step(p: Pos, d: int) -> Pos {
    (p.0 + diag(d).0, p.1 + diag(d).1, p.2 + diag(d).2)
}

/// An empty voxel inside the grid.
pub open spec fn open_cell(v: Seq<bool>, n: int, p: Pos) -> bool {
    in_grid(n, p.0, p.1, p.2) && !v[index_of(n, p.0, p.1, p.2)]
}

/// A walk through empty voxels, each a diagonal neighbour of the one before,
/// whose last step leaves the grid.
pub open spec fn escape_path(v: Seq<bool>, n: int, path: Seq<Pos>) -> bool {
    &&& path.len() >= 2
    &&& !in_grid(n, path.last().0, path.last().1, path.last().2)
    &&& forall|k: int| 0 <= k < path.len() - 1 ==> #[trigger] open_cell(v, n, path[k])
    &&& forall|k: int| #![trigger path[k]] 0 <= k < path.len() - 1 ==> adjacent(path[k], path[k + 1])
}

/// The empty voxel `p` is connected to the outside of the grid through empty voxels.
pub open spec fn escapes(v: Seq<bool>, n: int, p: Pos) -> bool {
    exists|path: Seq<Pos>| #[trigger] escape_path(v, n, path) && path[0] == p
}

/// The grid after classification: every voxel is filled except the empty ones from which
/// the outside can be reached; enclosed cavities become solid.
pub open spec fn classified(v: Seq<bool>, n: int) -> Seq<bool> {
    Seq::new(v.len(), |i: int| v[i] || !escapes(v, n, pos_of(n, i)))
}

/// A voxel on a face of the grid.
pub open spec fn on_boundary(n: int, p: Pos) -> bool {
    p.0 == 0 || p.1 == 0 || p.2 == 0 || p.0 == n - 1 || p.1 == n - 1 || p.2 == n - 1
}

/// Every empty in-grid diagonal neighbour of the voxel at index `i` is marked.
pub open spec fn closed(v: Seq<bool>, n: int, marks: Seq<bool>, i: int) -> bool {
    forall|d: int| 0 <= d < 8 && #[trigger] open_cell(v, n, step(pos_of(n, i), d))
        ==> marks[index_of(n, step(pos_of(n, i), d).0, step(pos_of(n, i), d).1, step(pos_of(n, i), d).2)]
}

/// Every diagonal neighbour is one of the eight offsets.
proof fn lemma_adjacent_is_step(p: Pos, q: Pos) -> (d: int)
    requires
        adjacent(p, q),
    ensures
        0 <= d < 8,
        step(p, d) == q,
{
    let a: int = if q.0 > p.0 { 0 } else { 1 };
    let b: int = if q.1 > p.1 { 0 } else { 1 };
    let c: int = if q.2 > p.2 { 0 } else { 1 };
    let d = a + 2 * b + 4 * c;
    assert(d % 2 == a && (d / 2) % 2 == b && d / 4 == c);
    d
}

/// An empty voxel on a face of the grid has a diagonal neighbour outside it.
proof fn lemma_boundary_escapes(v: Seq<bool>, n: int, p: Pos)
    requires
        n >= 1,
        open_cell(v, n, p),
        on_boundary(n, p),
    ensures
        escapes(v, n, p),
{
    let q: Pos = if p.0 == 0 {
        (p.0 - 1, p.1 + 1, p.2 + 1)
    } else if p.1 == 0 {
        (p.0 + 1, p.1 - 1, p.2 + 1)
    } else if p.2 == 0 {
        (p.0 + 1, p.1 + 1, p.2 - 1)
    } else {
        (p.0 + 1, p.1 + 1, p.2 + 1)
    };
    let path = seq![p, q];
    assert(path[0] == p && path[1] == q);
    assert(escape_path(v, n, path));
}

/// An empty voxel next to one that escapes escapes too.
proof fn lemma_escape_extend(v: Seq<bool>, n: int, p: Pos, q: Pos)
    requires
        escapes(v, n, p),
        open_cell(v, n, q),
        adjacent(q, p),
    ensures
        escapes(v, n, q),
{
    let path = choose|path: Seq<Pos>| #[trigger] escape_path(v, n, path) && path[0] == p;
    let longer = seq![q] + path;
    assert forall|k: int| 0 <= k < longer.len() - 1 implies #[trigger] open_cell(v, n, longer[k]) by {
        if k > 0 {
            assert(longer[k] == path[k - 1]);
        }
    }
    assert forall|k: int| #![trigger longer[k]] 0 <= k < longer.len() - 1 implies adjacent(longer[k], longer[k + 1]) by {
        if k > 0 {
            assert(longer[k] == path[k - 1]);
            assert(longer[k + 1] == path[k]);
            assert(path[k - 1] == path[k - 1]);
        }
    }
    assert(longer.last() == path.last());
    assert(escape_path(v, n, longer));
}

/// A walk that escapes passes only through marked voxels, when the marks cover every empty
/// voxel on a face of the grid and hold every empty diagonal neighbour of a marked voxel.
proof fn lemma_escape_marked(v: Seq<bool>, n: int, marks: Seq<bool>, path: Seq<Pos>, k: int)
    requires
        n >= 1,
        v.len() == cube(n),
        marks.len() == cube(n),
        escape_path(v, n, path),
        0 <= k <= path.len() - 2,
        forall|i: int| 0 <= i < cube(n) && #[trigger] marks[i] ==> closed(v, n, marks, i),
        forall|i: int| 0 <= i < cube(n) && on_boundary(n, #[trigger] pos_of(n, i)) && !v[i] ==> marks[i],
    ensures
        marks[index_of(n, path[k].0, path[k].1, path[k].2)],
    decreases path.len() - k,
{
    let p = path[k];
    assert(open_cell(v, n, p));
    let i = index_of(n, p.0, p.1, p.2);
    lemma_index_of(n, p.0, p.1, p.2);
    assert(pos_of(n, i) == p);
    assert(adjacent(path[k], path[k + 1]));
    if k == path.len() - 2 {
        assert(on_boundary(n, pos_of(n, i)));
    } else {
        lemma_escape_marked(v, n, marks, path, k + 1);
        let q = path[k + 1];
        assert(open_cell(v, n, q));
        let j = index_of(n, q.0, q.1, q.2);
        lemma_index_of(n, q.0, q.1, q.2);
        assert(pos_of(n, j) == q);
        assert(closed(v, n, marks, j));
        let d = lemma_adjacent_is_step(q, p);
        assert(open_cell(v, n, step(pos_of(n, j), d)));
    }
}

/// Marking more voxels keeps a marked voxel's neighbourhood closed.
proof fn lemma_closed_grow(v: Seq<bool>, n: int, m1: Seq<bool>, m2: Seq<bool>, j: int)
    requires
        m1.len() == cube(n),
        m2.len() == cube(n),
        forall|x: int| 0 <= x < cube(n) && #[trigger] m1[x] ==> m2[x],
        closed(v, n, m1, j),
    ensures
        closed(v, n, m2, j),
{
    assert forall|d: int| 0 <= d < 8 && #[trigger] open_cell(v, n, step(pos_of(n, j), d))
        implies m2[index_of(n, step(pos_of(n, j), d).0, step(pos_of(n, j), d).1, step(pos_of(n, j), d).2)] by {
        let r = step(pos_of(n, j), d);
        lemma_index_of(n, r.0, r.1, r.2);
    }
}

/// Whether `j` is one of the entries of `stack`.
pub open spec fn in_stack(stack: Seq<usize>, j: int) -> bool {
    exists|k: int| 0 <= k < stack.len() && stack[k] == j
}

/// Marks the empty voxels from which the outside of the grid can be reached: a flood fill
/// through corner-diagonal neighbours, driven by an explicit stack and seeded with every
/// empty voxel on a face of the grid.
fn exterior_marks(grid: &VoxelGrid) -> (marks: Vec<bool>)
    requires
        grid.wf(),
    ensures
        marks@.len() == grid.voxels@.len(),
        forall|i: int| 0 <= i < marks@.len() ==> #[trigger] marks@[i]
            == (!grid.voxels@[i] && escapes(grid.voxels@, grid.size as int, pos_of(grid.size as int, i))),
{
    let n = grid.size;
    let ghost ni = n as int;
    let ghost v = grid.voxels@;
    let total = grid.voxels.len();
    proof {
        lemma_cube_fits(ni);
        lemma_int_range(0, total as int);
    }
    let mut ext: Vec<bool> = vec![false; total];
    let mut stack: Vec<usize> = Vec::new();
    let ghost mut ms: Set<int> = Set::empty();

    let mut i: usize = 0;
    while i < total
        invariant
            grid.wf(),
            n == grid.size,
            ni == n,
            v == grid.voxels@,
            total == v.len(),
            i <= total,
            ext@.len() == total,
            forall|k: int| 0 <= k < stack@.len() ==> stack@[k] < total && ext@[stack@[k] as int],
            forall|j: int| 0 <= j < total && #[trigger] ext@[j] ==> !v[j] && escapes(v, ni, pos_of(ni, j)),
            forall|j: int| 0 <= j < total && #[trigger] ext@[j] ==> in_stack(stack@, j),
            forall|j: int| 0 <= j < i && on_boundary(ni, #[trigger] pos_of(ni, j)) && !v[j] ==> ext@[j],
            ms.finite(),
            forall|j: int| #[trigger] ms.contains(j) <==> (0 <= j < total && ext@[j]),
            set_int_range(0, total as int).finite(),
            set_int_range(0, total as int).len() == total,
        decreases total - i,
    {
        let (x, y, z) = grid.to_3d(i);
        if !grid.voxels[i] && (x == 0 || y == 0 || z == 0 || x == n - 1 || y == n - 1 || z == n - 1) {
            proof {
                lemma_boundary_escapes(v, ni, pos_of(ni, i as int));
                lemma_index_of(ni, x as int, y as int, z as int);
            }
            let ghost old_ext = ext@;
            let ghost old_stack = stack@;
            ext.set(i, true);
            stack.push(i);
            proof {
                ms = ms.insert(i as int);
                assert(stack@[stack@.len() - 1] == i);
                assert forall|j: int| 0 <= j < total && #[trigger] ext@[j] implies in_stack(stack@, j) by {
                    if j != i {
                        assert(old_ext[j]);
                        let k = choose|k: int| 0 <= k < old_stack.len() && old_stack[k] == j;
                        assert(stack@[k] == j);
                    } else {
                        assert(stack@[stack@.len() - 1] == j);
                    }
                }
            }
        }
        i += 1;
    }

    proof {
        assert(ms.subset_of(set_int_range(0, total as int)));
        lemma_len_subset(ms, set_int_range(0, total as int));
    }
    while stack.len() > 0
        invariant
            grid.wf(),
            n == grid.size,
            ni == n,
            v == grid.voxels@,
            total == v.len(),
            ext@.len() == total,
            forall|k: int| 0 <= k < stack@.len() ==> stack@[k] < total && ext@[stack@[k] as int],
            forall|j: int| 0 <= j < total && #[trigger] ext@[j] ==> !v[j] && escapes(v, ni, pos_of(ni, j)),
            forall|j: int| 0 <= j < total && #[trigger] ext@[j] ==> closed(v, ni, ext@, j) || in_stack(stack@, j),
            forall|j: int| 0 <= j < total && on_boundary(ni, #[trigger] pos_of(ni, j)) && !v[j] ==> ext@[j],
            ms.finite(),
            forall|j: int| #[trigger] ms.contains(j) <==> (0 <= j < total && ext@[j]),
            ms.len() <= total,
            set_int_range(0, total as int).finite(),
            set_int_range(0, total as int).len() == total,
        decreases 2 * (total - ms.len()) + stack@.len(),
    {
        let ghost measure = 2 * (total - ms.len()) + stack@.len();
        let ghost before = stack@;
        let i = stack.pop().unwrap();
        proof {
            assert(before[before.len() - 1] == i);
            assert(stack@ =~= before.subrange(0, before.len() - 1));
            assert forall|j: int| 0 <= j < total && #[trigger] ext@[j]
                implies closed(v, ni, ext@, j) || in_stack(stack@, j) || j == i by {
                if !closed(v, ni, ext@, j) {
                    let k = choose|k: int| 0 <= k < before.len() && before[k] == j;
                    if k < before.len() - 1 {
                        assert(stack@[k] == j);
                    }
                }
            }
        }
        let (x, y, z) = grid.to_3d(i);
        let mut d: usize = 0;
        while d < 8
            invariant
                grid.wf(),
                n == grid.size,
                ni == n,
                v == grid.voxels@,
                total == v.len(),
                i < total,
                ext@[i as int],
                (x as int, y as int, z as int) == pos_of(ni, i as int),
                in_grid(ni, x as int, y as int, z as int),
                d <= 8,
                ext@.len() == total,
                forall|k: int| 0 <= k < stack@.len() ==> stack@[k] < total && ext@[stack@[k] as int],
                forall|j: int| 0 <= j < total && #[trigger] ext@[j] ==> !v[j] && escapes(v, ni, pos_of(ni, j)),
                forall|j: int| 0 <= j < total && #[trigger] ext@[j] ==> closed(v, ni, ext@, j) || in_stack(stack@, j) || j == i,
                forall|j: int| 0 <= j < total && on_boundary(ni, #[trigger] pos_of(ni, j)) && !v[j] ==> ext@[j],
                forall|dd: int| 0 <= dd < d && #[trigger] open_cell(v, ni, step(pos_of(ni, i as int), dd))
                    ==> ext@[index_of(ni, step(pos_of(ni, i as int), dd).0, step(pos_of(ni, i as int), dd).1, step(pos_of(ni, i as int), dd).2)],
                ms.finite(),
                forall|j: int| #[trigger] ms.contains(j) <==> (0 <= j < total && ext@[j]),
                ms.len() <= total,
                set_int_range(0, total as int).finite(),
                set_int_range(0, total as int).len() == total,
                2 * (total - ms.len()) + stack@.len() < measure,
            decreases 8 - d,
        {
            let ox: i64 = if d % 2 == 0 { 1 } else { -1 };
            let oy: i64 = if (d / 2) % 2 == 0 { 1 } else { -1 };
            let oz: i64 = if d / 4 == 0 { 1 } else { -1 };
            let nx: i64 = x as i64 + ox;
            let ny: i64 = y as i64 + oy;
            let nz: i64 = z as i64 + oz;
            let ghost q = step(pos_of(ni, i as int), d as int);
            assert(q == (nx as int, ny as int, nz as int));
            if 0 <= nx && nx < n as i64 && 0 <= ny && ny < n as i64 && 0 <= nz && nz < n as i64 {
                let qi = grid.to_1d(nx as usize, ny as usize, nz as usize);
                if !grid.voxels[qi] && !ext[qi] {
                    proof {
                        lemma_index_of(ni, q.0, q.1, q.2);
                        lemma_escape_extend(v, ni, pos_of(ni, i as int), q);
                    }
                    let ghost old_ext = ext@;
                    let ghost old_stack = stack@;
                    ext.set(qi, true);
                    stack.push(qi);
                    proof {
                        ms = ms.insert(qi as int);
                        assert(ms.subset_of(set_int_range(0, total as int)));
                        lemma_len_subset(ms, set_int_range(0, total as int));
                        assert(stack@[stack@.len() - 1] == qi);
                        assert forall|j: int| 0 <= j < total && #[trigger] ext@[j]
                            implies closed(v, ni, ext@, j) || in_stack(stack@, j) || j == i by {
                            if j == qi {
                                assert(stack@[stack@.len() - 1] == j);
                            } else {
                                assert(old_ext[j]);
                                if in_stack(old_stack, j) {
                                    let k = choose|k: int| 0 <= k < old_stack.len() && old_stack[k] == j;
                                    assert(stack@[k] == j);
                                } else if j != i {
                                    lemma_closed_grow(v, ni, old_ext, ext@, j);
                                }
                            }
                        }
                        assert forall|dd: int| 0 <= dd < d && #[trigger] open_cell(v, ni, step(pos_of(ni, i as int), dd))
                            implies ext@[index_of(ni, step(pos_of(ni, i as int), dd).0, step(pos_of(ni, i as int), dd).1, step(pos_of(ni, i as int), dd).2)] by {
                            let r = step(pos_of(ni, i as int), dd);
                            lemma_index_of(ni, r.0, r.1, r.2);
                        }
                    }
                }
            }
            d += 1;
        }
        proof {
            assert(closed(v, ni, ext@, i as int));
        }
    }
    proof {
        assert forall|j: int| 0 <= j < total && #[trigger] ext@[j] implies closed(v, ni, ext@, j) by {
            assert(!in_stack(stack@, j));
        }
        assert forall|i: int| 0 <= i < total implies #[trigger] ext@[i]
            == (!v[i] && escapes(v, ni, pos_of(ni, i))) by {
            if !v[i] && escapes(v, ni, pos_of(ni, i)) {
                let path = choose|path: Seq<Pos>| #[trigger] escape_path(v, ni, path) && path[0] == pos_of(ni, i);
                lemma_escape_marked(v, ni, ext@, path, 0);
                lemma_coords_of(ni, i);
            }
        }
    }
    ext
}

impl VoxelGrid {
    /// Interior classification: every empty voxel that cannot reach the outside of the grid
    /// through empty corner-diagonal neighbours is filled. Enclosed cavities can never be
    /// seen, so they count as solid.
    pub fn classify_interior(&mut self)
        requires
            old(self).wf(),
        ensures
            final(self).wf(),
            final(self).size == old(self).size,
            final(self).bb_min == old(self).bb_min,
            final(self).bb_max == old(self).bb_max,
            final(self).voxels@ == classified(old(self).voxels@, old(self).size as int),
    {
        let ghost v0 = self.voxels@;
        let ghost n = self.size as int;
        let marks = exterior_marks(self);
        let mut i: usize = 0;
        while i < self.voxels.len()
            invariant
                self.wf(),
                self.size == n,
                self.bb_min == old(self).bb_min,
                self.bb_max == old(self).bb_max,
                v0.len() == self.voxels@.len(),
                marks@.len() == v0.len(),
                i <= v0.len(),
                forall|j: int| 0 <= j < marks@.len() ==> #[trigger] marks@[j]
                    == (!v0[j] && escapes(v0, n, pos_of(n, j))),
                forall|j: int| 0 <= j < i ==> #[trigger] self.voxels@[j] == (v0[j] || !marks@[j]),
                forall|j: int| i <= j < v0.len() ==> #[trigger] self.voxels@[j] == v0[j],
            decreases v0.len() - i,
        {
            if !self.voxels[i] && !marks[i] {
                self.voxels.set(i, true);
            }
            i += 1;
        }
        proof {
            assert(self.voxels@ =~= classified(v0, n));
        }
    }
}

/// The tail of an escaping walk, from any of its voxels inside the grid, escapes too.
proof fn lemma_escape_suffix(v: Seq<bool>, n: int, path: Seq<Pos>, k: int)
    requires
        escape_path(v, n, path),
        0 <= k <= path.len() - 2,
    ensures
        escape_path(v, n, path.subrange(k, path.len() as int)),
{
    let tail = path.subrange(k, path.len() as int);
    assert forall|m: int| 0 <= m < tail.len() - 1 implies #[trigger] open_cell(v, n, tail[m]) by {
        assert(tail[m] == path[k + m]);
    }
    assert forall|m: int| #![trigger tail[m]] 0 <= m < tail.len() - 1 implies adjacent(tail[m], tail[m + 1]) by {
        assert(tail[m] == path[k + m]);
        assert(tail[m + 1] == path[k + m + 1]);
        assert(adjacent(path[k + m], path[k + m + 1]));
    }
    assert(tail.last() == path.last());
}

/// Classification is idempotent: classifying a classified grid changes nothing, since no
/// enclosed empty voxel is left after one pass.
pub proof fn lemma_classify_idempotent(v: Seq<bool>, n: int)
    requires
        n >= 1,
        v.len() == cube(n),
    ensures
        classified(classified(v, n), n) == classified(v, n),
{
    let w = classified(v, n);
    assert forall|i: int| 0 <= i < w.len() implies #[trigger] classified(w, n)[i] == w[i] by {
        if !w[i] {
            let p = pos_of(n, i);
            let path = choose|path: Seq<Pos>| #[trigger] escape_path(v, n, path) && path[0] == p;
            assert forall|k: int| 0 <= k < path.len() - 1 implies #[trigger] open_cell(w, n, path[k]) by {
                let q = path[k];
                assert(open_cell(v, n, q));
                lemma_index_of(n, q.0, q.1, q.2);
                let j = index_of(n, q.0, q.1, q.2);
                assert(pos_of(n, j) == q);
                lemma_escape_suffix(v, n, path, k);
                assert(path.subrange(k, path.len() as int)[0] == q);
                assert(escapes(v, n, q));
            }
            assert(escape_path(w, n, path));
        }
    }
    assert(classified(w, n) =~= w);
}

} // verus!
