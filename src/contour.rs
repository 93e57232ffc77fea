use vstd::prelude::*;
use vstd::set_lib::{lemma_len_subset, set_int_range, lemma_int_range};
use crate::simplify::Pt;

verus! {

/// Largest side of a traced image.
pub const MAX_IMAGE_SIDE: usize = 1024;

/// A directed unit edge of the pixel-corner lattice: its start corner `(x, y)` and its
/// heading (0 east, 1 south, 2 west, 3 north; y grows downwards).
pub type Edge = (int, int, int);

/// Pixel `(x, y)` of the `w × h` image, row-major in `bits`, is filled; pixels outside
/// the image are empty.
#[verifier::opaque]
pub open spec fn pix(bits: Seq<i8>, w: int, h: int, x: int, y: int) -> bool {
    0 <= x < w && 0 <= y < h && bits[y * w + x] == 1
}

/// The x step of heading `d`.
pub open spec fn hx(d: int) -> int {
    if d == 0 { 1 } else if d == 2 { -1 } else { 0 }
}

/// The y step of heading `d`.
pub open spec fn hy(d: int) -> int {
    if d == 1 { 1 } else if d == 3 { -1 } else { 0 }
}

/// The edge separates a filled pixel, on its right, from an empty pixel, on its left.
#[verifier::opaque]
pub open spec fn boundary(bits: Seq<i8>, w: int, h: int, e: Edge) -> bool {
    let (x, y, d) = e;
    if d == 0 {
        pix(bits, w, h, x, y) && !pix(bits, w, h, x, y - 1)
    } else if d == 1 {
        pix(bits, w, h, x - 1, y) && !pix(bits, w, h, x, y)
    } else if d == 2 {
        pix(bits, w, h, x - 1, y - 1) && !pix(bits, w, h, x - 1, y)
    } else if d == 3 {
        pix(bits, w, h, x, y - 1) && !pix(bits, w, h, x - 1, y - 1)
    } else {
        false
    }
}

/// The heading taken at corner `(x, y)` after arriving with heading `d`: a right turn if
/// that edge is a boundary edge, else straight on if that is, else a left turn. Turning
/// right first keeps pixels that touch only at a corner on separate outlines.
pub open spec fn turn(bits: Seq<i8>, w: int, h: int, x: int, y: int, d: int) -> int {
    if boundary(bits, w, h, (x, y, (d + 1) % 4)) {
        (d + 1) % 4
    } else if boundary(bits, w, h, (x, y, d)) {
        d
    } else {
        (d + 3) % 4
    }
}

/// The boundary edge that follows `e` on its boundary loop.
#[verifier::opaque]
pub open spec fn next(bits: Seq<i8>, w: int, h: int, e: Edge) -> Edge {
    let (x, y) = (e.0 + hx(e.2), e.1 + hy(e.2));
    (x, y, turn(bits, w, h, x, y, e.2))
}

/// The heading of the unit step from `p` to `q`; 4 when it is no unit step.
pub open spec fn heading(p: Pt, q: Pt) -> int {
    if q.x == p.x + 1 && q.y == p.y {
        0
    } else if q.x == p.x && q.y == p.y + 1 {
        1
    } else if q.x == p.x - 1 && q.y == p.y {
        2
    } else if q.x == p.x && q.y == p.y - 1 {
        3
    } else {
        4
    }
}

/// Step `i` of the closed path `path`: the edge from its point `i` to the next one, the last
/// point leading back to the first.
#[verifier::opaque]
pub open spec fn step(path: Seq<Pt>, i: int) -> Edge {
    let p = path[i];
    let q = path[(i + 1) % path.len() as int];
    (p.x as int, p.y as int, heading(p, q))
}

/// Index of the lattice slot that edge `e` runs along: horizontal slots first, row by row,
/// then vertical slots.
pub open spec fn slot(w: int, h: int, e: Edge) -> int {
    let (x, y, d) = e;
    if d == 0 {
        y * w + x
    } else if d == 2 {
        y * w + x - 1
    } else if d == 1 {
        (h + 1) * w + y * (w + 1) + x
    } else {
        (h + 1) * w + (y - 1) * (w + 1) + x
    }
}

/// Number of lattice slots of a `w × h` image.
pub open spec fn slots(w: int, h: int) -> int {
    (h + 1) * w + h * (w + 1)
}

/// The boundary edge after a boundary edge is a boundary edge.
proof fn lemma_next_boundary(bits: Seq<i8>, w: int, h: int, e: Edge)
    requires
        boundary(bits, w, h, e),
    ensures
        boundary(bits, w, h, next(bits, w, h, e)),
{
    reveal(boundary);
    reveal(next);
}

/// Two boundary edges with the same successor are the same edge.
proof fn lemma_next_injective(bits: Seq<i8>, w: int, h: int, e: Edge, f: Edge)
    requires
        boundary(bits, w, h, e),
        boundary(bits, w, h, f),
        next(bits, w, h, e) == next(bits, w, h, f),
    ensures
        e == f,
{
    reveal(boundary);
    reveal(next);
}

/// Boundary edges lie on slots in range, one edge per slot.
proof fn lemma_slot(bits: Seq<i8>, w: int, h: int, e: Edge, f: Edge)
    requires
        w >= 1,
        h >= 1,
        boundary(bits, w, h, e),
        boundary(bits, w, h, f),
    ensures
        0 <= slot(w, h, e) < slots(w, h),
        slot(w, h, e) == slot(w, h, f) ==> e == f,
        0 <= e.2 < 4,
        e.2 == 0 ==> 0 <= e.0 < w && 0 <= e.1 < h,
        e.2 == 1 ==> 1 <= e.0 <= w && 0 <= e.1 < h,
        e.2 == 2 ==> 1 <= e.0 <= w && 1 <= e.1 <= h,
        e.2 == 3 ==> 0 <= e.0 < w && 1 <= e.1 <= h,
{
    reveal(boundary);
    lemma_slot_range(bits, w, h, e);
    lemma_slot_range(bits, w, h, f);
    let (x, y, d) = e;
    let (u, v, c) = f;
    if slot(w, h, e) == slot(w, h, f) {
        if d == 0 || d == 2 {
            if c == 0 || c == 2 {
                let xe = if d == 0 { x } else { x - 1 };
                let xf = if c == 0 { u } else { u - 1 };
                lemma_row_unique(w, y, xe, v, xf);
            }
        } else {
            if c == 1 || c == 3 {
                let ye = if d == 1 { y } else { y - 1 };
                let yf = if c == 1 { v } else { v - 1 };
                lemma_row_unique(w + 1, ye, x, yf, u);
            }
        }
    }
}

proof fn lemma_slot_range(bits: Seq<i8>, w: int, h: int, e: Edge)
    requires
        w >= 1,
        h >= 1,
        boundary(bits, w, h, e),
    ensures
        e.2 == 0 || e.2 == 2 ==> 0 <= slot(w, h, e) < (h + 1) * w,
        e.2 == 1 || e.2 == 3 ==> (h + 1) * w <= slot(w, h, e) < slots(w, h),
        0 <= e.2 < 4,
        e.2 == 0 ==> 0 <= e.0 < w && 0 <= e.1 < h,
        e.2 == 1 ==> 1 <= e.0 <= w && 0 <= e.1 < h,
        e.2 == 2 ==> 1 <= e.0 <= w && 1 <= e.1 <= h,
        e.2 == 3 ==> 0 <= e.0 < w && 1 <= e.1 <= h,
{
    reveal(boundary);
    reveal(pix);
    let (x, y, d) = e;
    if d == 0 {
        assert(0 <= y * w + x < (h + 1) * w) by (nonlinear_arith)
            requires 0 <= x < w, 0 <= y < h;
    } else if d == 2 {
        assert(0 <= y * w + x - 1 < (h + 1) * w) by (nonlinear_arith)
            requires 1 <= x <= w, 1 <= y <= h;
    } else if d == 1 {
        assert(0 <= y * (w + 1) + x < h * (w + 1)) by (nonlinear_arith)
            requires 1 <= x <= w, 0 <= y < h;
    } else {
        assert(0 <= (y - 1) * (w + 1) + x < h * (w + 1)) by (nonlinear_arith)
            requires 0 <= x < w, 1 <= y <= h;
    }
}

proof fn lemma_row_unique(w: int, a: int, b: int, c: int, d: int)
    requires
        w >= 1,
        0 <= b < w,
        0 <= d < w,
        a * w + b == c * w + d,
    ensures
        a == c && b == d,
{
    if a < c {
        assert(a * w + b < c * w + d) by (nonlinear_arith)
            requires a < c, 0 <= b < w, 0 <= d, w >= 1;
    } else if a > c {
        assert(a * w + b > c * w + d) by (nonlinear_arith)
            requires a > c, 0 <= d < w, 0 <= b, w >= 1;
    }
}

/// The marked slots.
pub open spec fn marked(m: Seq<bool>) -> Set<int> {
    Set::new(|t: int| 0 <= t < m.len() && m[t])
}

proof fn lemma_marked_bound(m: Seq<bool>)
    ensures
        marked(m).finite(),
        marked(m).len() <= m.len(),
{
    lemma_int_range(0, m.len() as int);
    assert(marked(m).subset_of(set_int_range(0, m.len() as int)));
    lemma_len_subset(marked(m), set_int_range(0, m.len() as int));
}

proof fn lemma_marked_insert(m: Seq<bool>, s: int)
    requires
        0 <= s < m.len(),
        !m[s],
    ensures
        marked(m.update(s, true)) == marked(m).insert(s),
        marked(m.update(s, true)).len() == marked(m).len() + 1,
{
    lemma_marked_bound(m);
    assert(marked(m.update(s, true)) =~= marked(m).insert(s));
}

/// `(i + 1) % n` for `0 <= i < n`.
proof fn lemma_succ_mod(i: int, n: int)
    requires
        0 <= i < n,
    ensures
        (i + 1) % n == if i + 1 == n { 0 } else { i + 1 },
{
    if i + 1 == n {
        vstd::arithmetic::div_mod::lemma_fundamental_div_mod_converse(i + 1, n, 1, 0);
    } else {
        vstd::arithmetic::div_mod::lemma_fundamental_div_mod_converse(i + 1, n, 0, i + 1);
    }
}

/// The image is `w × h` within the accepted sides, and `bits` covers it.
pub open spec fn image_ok(bits: Seq<i8>, w: int, h: int) -> bool {
    &&& 1 <= w <= MAX_IMAGE_SIDE
    &&& 1 <= h <= MAX_IMAGE_SIDE
    &&& bits.len() >= w * h
}

/// Whether pixel `(x, y)` is filled.
fn pixel(bits: &Vec<i8>, w: usize, h: usize, x: i64, y: i64) -> (r: bool)
    requires
        image_ok(bits@, w as int, h as int),
        -2 <= x <= w + 2,
        -2 <= y <= h + 2,
    ensures
        r == pix(bits@, w as int, h as int, x as int, y as int),
{
    reveal(pix);
    if x < 0 || y < 0 || x >= w as i64 || y >= h as i64 {
        false
    } else {
        proof {
            assert(y * w + x < w * h) by (nonlinear_arith)
                requires 0 <= x < w, 0 <= y < h;
            assert(y * w <= 1024 * 1024) by (nonlinear_arith)
                requires 0 <= y < h, w <= 1024, h <= 1024;
        }
        bits[y as usize * w + x as usize] == 1
    }
}

/// Whether the edge from corner `(x, y)` with heading `d` is a boundary edge.
fn is_boundary(bits: &Vec<i8>, w: usize, h: usize, x: i64, y: i64, d: i64) -> (r: bool)
    requires
        image_ok(bits@, w as int, h as int),
        -1 <= x <= w + 1,
        -1 <= y <= h + 1,
        0 <= d < 4,
    ensures
        r == boundary(bits@, w as int, h as int, (x as int, y as int, d as int)),
{
    reveal(boundary);
    if d == 0 {
        pixel(bits, w, h, x, y) && !pixel(bits, w, h, x, y - 1)
    } else if d == 1 {
        pixel(bits, w, h, x - 1, y) && !pixel(bits, w, h, x, y)
    } else if d == 2 {
        pixel(bits, w, h, x - 1, y - 1) && !pixel(bits, w, h, x - 1, y)
    } else {
        pixel(bits, w, h, x, y - 1) && !pixel(bits, w, h, x - 1, y - 1)
    }
}

/// The slot of a boundary edge.
fn slot_of(w: usize, h: usize, x: i64, y: i64, d: i64) -> (r: usize)
    requires
        1 <= w <= MAX_IMAGE_SIDE,
        1 <= h <= MAX_IMAGE_SIDE,
        0 <= d < 4,
        d == 0 ==> 0 <= x < w && 0 <= y < h,
        d == 1 ==> 1 <= x <= w && 0 <= y < h,
        d == 2 ==> 1 <= x <= w && 1 <= y <= h,
        d == 3 ==> 0 <= x < w && 1 <= y <= h,
    ensures
        r == slot(w as int, h as int, (x as int, y as int, d as int)),
{
    proof {
        assert((h + 1) * w <= 1025 * 1024) by (nonlinear_arith)
            requires w <= 1024, h <= 1024;
        assert(y * w <= 1025 * 1024) by (nonlinear_arith)
            requires 0 <= y <= h, w <= 1024, h <= 1024;
        assert(y * (w + 1) <= 1025 * 1025) by (nonlinear_arith)
            requires 0 <= y <= h, w <= 1024, h <= 1024;
    }
    let (xu, yu) = (x as usize, y as usize);
    if d == 0 {
        yu * w + xu
    } else if d == 2 {
        yu * w + xu - 1
    } else if d == 1 {
        (h + 1) * w + yu * (w + 1) + xu
    } else {
        proof {
            assert((y - 1) * (w + 1) <= 1025 * 1025) by (nonlinear_arith)
                requires 1 <= y <= h, w <= 1024, h <= 1024;
        }
        (h + 1) * w + (yu - 1) * (w + 1) + xu
    }
}

/// Every marked boundary edge is the successor of a marked boundary edge: the marked edges
/// are whole boundary loops.
#[verifier::opaque]
pub open spec fn pred_closed(bits: Seq<i8>, w: int, h: int, m: Seq<bool>) -> bool {
    forall|f: Edge| #[trigger] boundary(bits, w, h, f) && m[slot(w, h, f)]
        ==> exists|g: Edge| boundary(bits, w, h, g) && m[slot(w, h, g)] && #[trigger] next(bits, w, h, g) == f
}

/// `walk` is a run of successive boundary edges, all distinct and unmarked in `old_marks`;
/// `marks` is `old_marks` with the slots of the walk's edges marked.
#[verifier::opaque]
pub open spec fn walk_ok(bits: Seq<i8>, w: int, h: int, old_marks: Seq<bool>, marks: Seq<bool>, walk: Seq<Edge>) -> bool {
    &&& walk.len() >= 1
    &&& forall|i: int| 0 <= i < walk.len() - 1 ==> next(bits, w, h, #[trigger] walk[i]) == walk[i + 1]
    &&& forall|i: int| 0 <= i < walk.len() ==> boundary(bits, w, h, #[trigger] walk[i]) && !old_marks[slot(w, h, walk[i])]
    &&& forall|i: int, j: int| 0 <= i < j < walk.len() ==> walk[i] != walk[j]
    &&& marks.len() == old_marks.len()
    &&& forall|e: Edge| #[trigger] boundary(bits, w, h, e) ==> (marks[slot(w, h, e)]
        <==> (old_marks[slot(w, h, e)] || walk.contains(e)))
    &&& forall|t: int| 0 <= t < old_marks.len() && old_marks[t] ==> #[trigger] marks[t]
}

/// The successor of a walk's last edge is its first edge or an unmarked boundary edge.
proof fn lemma_fresh(bits: Seq<i8>, w: int, h: int, old_marks: Seq<bool>, marks: Seq<bool>, walk: Seq<Edge>)
    requires
        w >= 1,
        h >= 1,
        walk_ok(bits, w, h, old_marks, marks, walk),
        pred_closed(bits, w, h, old_marks),
        next(bits, w, h, walk.last()) != walk[0],
    ensures
        boundary(bits, w, h, next(bits, w, h, walk.last())),
        !marks[slot(w, h, next(bits, w, h, walk.last()))],
{
    reveal(walk_ok);
    reveal(pred_closed);
    let last = walk.last();
    let f = next(bits, w, h, last);
    assert(boundary(bits, w, h, walk[walk.len() - 1]));
    lemma_next_boundary(bits, w, h, last);
    if marks[slot(w, h, f)] {
        if old_marks[slot(w, h, f)] {
            let g = choose|g: Edge| boundary(bits, w, h, g) && old_marks[slot(w, h, g)]
                && #[trigger] next(bits, w, h, g) == f;
            lemma_next_injective(bits, w, h, g, last);
        } else {
            let j = choose|j: int| 0 <= j < walk.len() && walk[j] == f;
            assert(j != 0);
            assert(next(bits, w, h, walk[j - 1]) == walk[j]);
            assert(boundary(bits, w, h, walk[j - 1]));
            lemma_next_injective(bits, w, h, walk[j - 1], last);
        }
    }
}

/// Extending a walk by its successor edge, and marking that edge's slot, keeps it a walk.
proof fn lemma_extend(bits: Seq<i8>, w: int, h: int, old_marks: Seq<bool>, marks: Seq<bool>, walk: Seq<Edge>)
    requires
        w >= 1,
        h >= 1,
        old_marks.len() == slots(w, h),
        walk_ok(bits, w, h, old_marks, marks, walk),
        boundary(bits, w, h, next(bits, w, h, walk.last())),
        !marks[slot(w, h, next(bits, w, h, walk.last()))],
    ensures
        walk_ok(bits, w, h, old_marks, marks.update(slot(w, h, next(bits, w, h, walk.last())), true),
            walk.push(next(bits, w, h, walk.last()))),
{
    reveal(walk_ok);
    let f = next(bits, w, h, walk.last());
    let nm = marks.update(slot(w, h, f), true);
    let nw = walk.push(f);
    lemma_slot(bits, w, h, f, f);
    assert(walk.len() >= 1);
    assert forall|e: Edge| #[trigger] boundary(bits, w, h, e) implies (nm[slot(w, h, e)]
        <==> (old_marks[slot(w, h, e)] || nw.contains(e))) by {
        lemma_slot(bits, w, h, e, f);
        assert(marks[slot(w, h, e)] <==> (old_marks[slot(w, h, e)] || walk.contains(e)));
        if walk.contains(e) {
            let j = choose|j: int| 0 <= j < walk.len() && walk[j] == e;
            assert(nw[j] == e);
        }
        if nw.contains(e) && e != f {
            let j = choose|j: int| 0 <= j < nw.len() && nw[j] == e;
            assert(walk[j] == e);
        }
        if e == f {
            assert(nw[nw.len() - 1] == e);
        }
    }
    assert forall|i: int| 0 <= i < nw.len() - 1 implies next(bits, w, h, #[trigger] nw[i]) == nw[i + 1] by {
        if i < walk.len() - 1 {
            assert(nw[i] == walk[i] && nw[i + 1] == walk[i + 1]);
        }
    }
    assert forall|i: int| 0 <= i < nw.len() implies boundary(bits, w, h, #[trigger] nw[i]) && !old_marks[slot(w, h, nw[i])] by {
        if i < walk.len() {
            assert(nw[i] == walk[i]);
        } else {
            assert(!(old_marks[slot(w, h, f)]) || marks[slot(w, h, f)]);
        }
    }
    assert forall|i: int, j: int| 0 <= i < j < nw.len() implies nw[i] != nw[j] by {
        if j == nw.len() - 1 {
            assert(nw[i] == walk[i]);
            assert(walk.contains(walk[i]));
            assert(marks[slot(w, h, walk[i])]);
        } else {
            assert(nw[i] == walk[i] && nw[j] == walk[j]);
        }
    }
    assert forall|t: int| 0 <= t < old_marks.len() && old_marks[t] implies #[trigger] nm[t] by {
        assert(marks[t]);
    }
}

/// Follows the boundary loop that starts with the unmarked boundary edge from `(x0, y0)` with
/// heading `d0`, marking each edge's slot, until the loop is back at that edge. Returns the
/// loop's start corners in order, and the loop's edges. The walk cannot stop short: every
/// boundary edge has a boundary successor, successors are one-to-one, and the marked edges
/// form whole loops, so the successor of the walk's last edge is its first edge or unmarked.
fn trace(bits: &Vec<i8>, w: usize, h: usize, marks: &mut Vec<bool>, x0: i64, y0: i64, d0: i64)
    -> (r: (Vec<Pt>, Ghost<Seq<Edge>>))
    requires
        image_ok(bits@, w as int, h as int),
        old(marks)@.len() == slots(w as int, h as int),
        boundary(bits@, w as int, h as int, (x0 as int, y0 as int, d0 as int)),
        !old(marks)@[slot(w as int, h as int, (x0 as int, y0 as int, d0 as int))],
        pred_closed(bits@, w as int, h as int, old(marks)@),
    ensures
        r.0@.len() == r.1@.len(),
        r.1@[0] == (x0 as int, y0 as int, d0 as int),
        forall|i: int| 0 <= i < r.0@.len() ==> #[trigger] step(r.0@, i) == r.1@[i],
        forall|i: int| 0 <= i < r.1@.len() ==> next(bits@, w as int, h as int, #[trigger] r.1@[i])
            == r.1@[(i + 1) % r.1@.len() as int],
        walk_ok(bits@, w as int, h as int, old(marks)@, final(marks)@, r.1@),
{
    let ghost bs = bits@;
    let ghost (ws, hs) = (w as int, h as int);
    let ghost old_marks = marks@;
    let ghost e0: Edge = (x0 as int, y0 as int, d0 as int);
    proof {
        lemma_slot(bs, ws, hs, e0, e0);
    }
    let s0 = slot_of(w, h, x0, y0, d0);
    proof {
        lemma_marked_insert(marks@, s0 as int);
    }
    marks.set(s0, true);
    let mut path: Vec<Pt> = Vec::new();
    path.push(Pt { x: x0, y: y0 });
    let ghost mut walk: Seq<Edge> = seq![e0];
    let mut d = d0;
    let mut x = x0 + if d0 == 0 { 1 } else if d0 == 2 { -1 } else { 0 };
    let mut y = y0 + if d0 == 1 { 1 } else if d0 == 3 { -1 } else { 0 };
    proof {
        reveal(walk_ok);
        assert forall|e: Edge| #[trigger] boundary(bs, ws, hs, e) implies (marks@[slot(ws, hs, e)]
            <==> (old_marks[slot(ws, hs, e)] || walk.contains(e))) by {
            lemma_slot(bs, ws, hs, e, e0);
            if walk.contains(e) {
                assert(e == walk[0]);
            }
            if e == e0 {
                assert(walk[0] == e);
            }
        }
        assert(walk_ok(bs, ws, hs, old_marks, marks@, walk));
        lemma_marked_bound(marks@);
    }
    loop
        invariant_except_break
            image_ok(bs, ws, hs),
            bs == bits@,
            ws == w,
            hs == h,
            marks@.len() == slots(ws, hs),
            e0 == (x0 as int, y0 as int, d0 as int),
            pred_closed(bs, ws, hs, old_marks),
            walk_ok(bs, ws, hs, old_marks, marks@, walk),
            old_marks.len() == slots(ws, hs),
            walk.len() >= 1,
            path@.len() == walk.len(),
            walk[0] == e0,
            forall|i: int| 0 <= i < walk.len() ==> #[trigger] path@[i].x == walk[i].0 && path@[i].y == walk[i].1,
            x == walk.last().0 + hx(walk.last().2),
            y == walk.last().1 + hy(walk.last().2),
            d == walk.last().2,
            0 <= x <= w,
            0 <= y <= h,
            0 <= d < 4,
        ensures
            walk_ok(bs, ws, hs, old_marks, marks@, walk),
            walk.len() >= 1,
            path@.len() == walk.len(),
            walk[0] == e0,
            forall|i: int| 0 <= i < walk.len() ==> #[trigger] path@[i].x == walk[i].0 && path@[i].y == walk[i].1,
            next(bs, ws, hs, walk.last()) == e0,
        decreases slots(ws, hs) - marked(marks@).len(),
    {
        let ghost last = walk.last();
        let nd: i64 = if is_boundary(bits, w, h, x, y, (d + 1) % 4) {
            (d + 1) % 4
        } else if is_boundary(bits, w, h, x, y, d) {
            d
        } else {
            (d + 3) % 4
        };
        let ghost f: Edge = (x as int, y as int, nd as int);
        assert(f == next(bs, ws, hs, last)) by {
            reveal(next);
        }
        if x == x0 && y == y0 && nd == d0 {
            break;
        }
        proof {
            lemma_fresh(bs, ws, hs, old_marks, marks@, walk);
            lemma_slot(bs, ws, hs, f, f);
            lemma_marked_bound(marks@);
        }
        let s = slot_of(w, h, x, y, nd);
        proof {
            lemma_marked_insert(marks@, s as int);
            lemma_extend(bs, ws, hs, old_marks, marks@, walk);
        }
        marks.set(s, true);
        path.push(Pt { x, y });
        let ghost old_walk = walk;
        proof {
            lemma_marked_bound(marks@);
            walk = walk.push(f);
            assert(walk[0] == e0);
            assert(walk.last() == f);
            assert forall|i: int| 0 <= i < walk.len() implies #[trigger] path@[i].x == walk[i].0 && path@[i].y == walk[i].1 by {
                if i < old_walk.len() {
                    assert(walk[i] == old_walk[i]);
                }
            }
        }
        x = x + if nd == 0 { 1 } else if nd == 2 { -1 } else { 0 };
        y = y + if nd == 1 { 1 } else if nd == 3 { -1 } else { 0 };
        d = nd;
    }
    proof {
        reveal(walk_ok);
        reveal(step);
        reveal(next);
        let n = walk.len() as int;
        assert forall|i: int| 0 <= i < n implies #[trigger] step(path@, i) == walk[i] by {
            lemma_succ_mod(i, n);
            let e = walk[i];
            lemma_slot(bs, ws, hs, e, e);
            if i + 1 < n {
                assert(next(bs, ws, hs, e) == walk[i + 1]);
            } else {
                assert(next(bs, ws, hs, walk.last()) == e0);
            }
        }
        assert forall|i: int| 0 <= i < n implies next(bs, ws, hs, #[trigger] walk[i]) == walk[(i + 1) % n] by {
            lemma_succ_mod(i, n);
        }
    }
    (path, Ghost(walk))
}
/// The closed paths `ps` run along boundary edges only, each step followed by the boundary
/// edge after it, and their steps are marked in `marks`.
#[verifier::opaque]
pub open spec fn paths_ok(bits: Seq<i8>, w: int, h: int, marks: Seq<bool>, ps: Seq<Seq<Pt>>) -> bool {
    &&& forall|k: int| 0 <= k < ps.len() ==> (#[trigger] ps[k]).len() >= 1
    &&& forall|k: int, i: int| 0 <= k < ps.len() && 0 <= i < ps[k].len()
        ==> boundary(bits, w, h, #[trigger] step(ps[k], i)) && marks[slot(w, h, step(ps[k], i))]
    &&& forall|k: int, i: int| 0 <= k < ps.len() && 0 <= i < ps[k].len()
        ==> next(bits, w, h, #[trigger] step(ps[k], i)) == step(ps[k], (i + 1) % ps[k].len() as int)
}

/// No two steps of the paths `ps` are the same edge.
#[verifier::opaque]
pub open spec fn steps_unique(ps: Seq<Seq<Pt>>) -> bool {
    forall|k1: int, i1: int, k2: int, i2: int|
        0 <= k1 < ps.len() && 0 <= i1 < ps[k1].len() && 0 <= k2 < ps.len() && 0 <= i2 < ps[k2].len()
        && #[trigger] step(ps[k1], i1) == #[trigger] step(ps[k2], i2) ==> k1 == k2 && i1 == i2
}

/// Every boundary edge whose slot is marked is a step of one of the paths `ps`.
#[verifier::opaque]
pub open spec fn marked_on_paths(bits: Seq<i8>, w: int, h: int, marks: Seq<bool>, ps: Seq<Seq<Pt>>) -> bool {
    forall|e: Edge| #[trigger] boundary(bits, w, h, e) && marks[slot(w, h, e)]
        ==> exists|k: int, i: int| 0 <= k < ps.len() && 0 <= i < ps[k].len() && #[trigger] step(ps[k], i) == e
}

/// Every boundary edge on a slot below `t` is marked.
#[verifier::opaque]
pub open spec fn covered_below(bits: Seq<i8>, w: int, h: int, marks: Seq<bool>, t: int) -> bool {
    forall|e: Edge| #[trigger] boundary(bits, w, h, e) && slot(w, h, e) < t ==> marks[slot(w, h, e)]
}

/// Paths whose marked steps follow each other close the marked edges under predecessors.
#[verifier::rlimit(100)]
proof fn lemma_pred_closed(bits: Seq<i8>, w: int, h: int, marks: Seq<bool>, ps: Seq<Seq<Pt>>)
    requires
        paths_ok(bits, w, h, marks, ps),
        marked_on_paths(bits, w, h, marks, ps),
    ensures
        pred_closed(bits, w, h, marks),
{
    reveal(pred_closed);
    reveal(paths_ok);
    reveal(marked_on_paths);
    assert forall|f: Edge| #[trigger] boundary(bits, w, h, f) && marks[slot(w, h, f)]
        implies exists|g: Edge| boundary(bits, w, h, g) && marks[slot(w, h, g)] && #[trigger] next(bits, w, h, g) == f by {
        let (k, i) = choose|k: int, i: int| 0 <= k < ps.len() && 0 <= i < ps[k].len() && #[trigger] step(ps[k], i) == f;
        let n = ps[k].len() as int;
        let j = if i == 0 { n - 1 } else { i - 1 };
        lemma_succ_mod(j, n);
        let g = step(ps[k], j);
        assert(boundary(bits, w, h, g) && marks[slot(w, h, g)]);
        assert(next(bits, w, h, g) == f);
    }
}

/// A filled pixel has a boundary edge on top of it or of a filled pixel above it.
proof fn lemma_top_edge(bits: Seq<i8>, w: int, h: int, x: int, y: int) -> (e: Edge)
    requires
        pix(bits, w, h, x, y),
    ensures
        boundary(bits, w, h, e),
    decreases y,
{
    reveal(boundary);
    if pix(bits, w, h, x, y - 1) {
        reveal(pix);
        lemma_top_edge(bits, w, h, x, y - 1)
    } else {
        (x, y, 0)
    }
}

/// A boundary edge has a filled pixel at its right.
proof fn lemma_filled_of_edge(bits: Seq<i8>, w: int, h: int, e: Edge) -> (p: (int, int))
    requires
        boundary(bits, w, h, e),
    ensures
        pix(bits, w, h, p.0, p.1),
{
    reveal(boundary);
    let (x, y, d) = e;
    if d == 0 { (x, y) } else if d == 1 { (x - 1, y) } else if d == 2 { (x - 1, y - 1) } else { (x, y - 1) }
}

/// After tracing the loop `walk` from the unmarked boundary edge `e0` on slot `t`, the paths
/// with the new one added keep every invariant of the scan, one slot further.
proof fn lemma_after_trace(bs: Seq<i8>, ws: int, hs: int, old_marks: Seq<bool>, marks: Seq<bool>,
    old_ps: Seq<Seq<Pt>>, p: Seq<Pt>, walk: Seq<Edge>, e0: Edge, t: int)
    requires
        ws >= 1,
        hs >= 1,
        old_marks.len() == slots(ws, hs),
        paths_ok(bs, ws, hs, old_marks, old_ps),
        steps_unique(old_ps),
        marked_on_paths(bs, ws, hs, old_marks, old_ps),
        covered_below(bs, ws, hs, old_marks, t),
        boundary(bs, ws, hs, e0),
        slot(ws, hs, e0) == t,
        p.len() == walk.len(),
        walk[0] == e0,
        forall|i: int| 0 <= i < p.len() ==> #[trigger] step(p, i) == walk[i],
        forall|i: int| 0 <= i < walk.len() ==> next(bs, ws, hs, #[trigger] walk[i]) == walk[(i + 1) % walk.len() as int],
        walk_ok(bs, ws, hs, old_marks, marks, walk),
    ensures
        paths_ok(bs, ws, hs, marks, old_ps.push(p)),
        steps_unique(old_ps.push(p)),
        marked_on_paths(bs, ws, hs, marks, old_ps.push(p)),
        covered_below(bs, ws, hs, marks, t + 1),
        marks.len() == old_marks.len(),
{
    reveal(walk_ok);
    reveal(paths_ok);
    reveal(steps_unique);
    reveal(marked_on_paths);
    reveal(covered_below);
    let ps = old_ps.push(p);
    let kn = old_ps.len() as int;
    assert(ps[kn] == p);
    assert forall|k: int, i: int| 0 <= k < ps.len() && 0 <= i < ps[k].len()
        implies boundary(bs, ws, hs, #[trigger] step(ps[k], i)) && marks[slot(ws, hs, step(ps[k], i))] by {
        if k < kn {
            assert(ps[k] == old_ps[k]);
            lemma_slot(bs, ws, hs, step(ps[k], i), step(ps[k], i));
        } else {
            assert(step(p, i) == walk[i]);
            assert(walk.contains(walk[i]));
        }
    }
    assert forall|k: int, i: int| 0 <= k < ps.len() && 0 <= i < ps[k].len()
        implies next(bs, ws, hs, #[trigger] step(ps[k], i)) == step(ps[k], (i + 1) % ps[k].len() as int) by {
        if k < kn {
            assert(ps[k] == old_ps[k]);
        } else {
            lemma_succ_mod(i, ps[k].len() as int);
            assert(step(p, i) == walk[i]);
            assert(step(p, (i + 1) % p.len() as int) == walk[(i + 1) % walk.len() as int]);
        }
    }
    assert forall|k: int| 0 <= k < ps.len() implies (#[trigger] ps[k]).len() >= 1 by {
        if k < kn {
            assert(ps[k] == old_ps[k]);
        }
    }
    assert(paths_ok(bs, ws, hs, marks, ps));
    assert forall|k1: int, i1: int, k2: int, i2: int|
        0 <= k1 < ps.len() && 0 <= i1 < ps[k1].len() && 0 <= k2 < ps.len() && 0 <= i2 < ps[k2].len()
        && #[trigger] step(ps[k1], i1) == #[trigger] step(ps[k2], i2) implies k1 == k2 && i1 == i2 by {
        if k1 < kn && k2 < kn {
            assert(ps[k1] == old_ps[k1] && ps[k2] == old_ps[k2]);
        } else if k1 == kn && k2 == kn {
            assert(step(p, i1) == walk[i1] && step(p, i2) == walk[i2]);
            if i1 < i2 {
                assert(walk[i1] != walk[i2]);
            } else if i2 < i1 {
                assert(walk[i2] != walk[i1]);
            }
        } else if k1 < kn {
            assert(ps[k1] == old_ps[k1]);
            assert(step(p, i2) == walk[i2]);
            assert(old_marks[slot(ws, hs, step(old_ps[k1], i1))]);
        } else {
            assert(ps[k2] == old_ps[k2]);
            assert(step(p, i1) == walk[i1]);
            assert(old_marks[slot(ws, hs, step(old_ps[k2], i2))]);
        }
    }
    assert forall|e: Edge| #[trigger] boundary(bs, ws, hs, e) && marks[slot(ws, hs, e)]
        implies exists|k: int, i: int| 0 <= k < ps.len() && 0 <= i < ps[k].len() && #[trigger] step(ps[k], i) == e by {
        if old_marks[slot(ws, hs, e)] {
            let (k, i) = choose|k: int, i: int| 0 <= k < old_ps.len() && 0 <= i < old_ps[k].len()
                && #[trigger] step(old_ps[k], i) == e;
            assert(ps[k] == old_ps[k]);
        } else {
            let j = choose|j: int| 0 <= j < walk.len() && walk[j] == e;
            assert(step(ps[kn], j) == e);
        }
    }
    assert forall|e: Edge| #[trigger] boundary(bs, ws, hs, e) && slot(ws, hs, e) < t + 1
        implies marks[slot(ws, hs, e)] by {
        lemma_slot(bs, ws, hs, e, e0);
        if slot(ws, hs, e) < t {
            assert(old_marks[slot(ws, hs, e)]);
        } else {
            assert(walk[0] == e0);
            assert(walk.contains(e0));
        }
    }
}

/// A closed path of boundary steps, each followed by the boundary edge after it, has at least
/// four corners: a step never leads back where it came from, and an odd number of unit steps
/// cannot return to its start.
proof fn lemma_loop_len(bits: Seq<i8>, w: int, h: int, p: Seq<Pt>)
    requires
        p.len() >= 1,
        forall|i: int| 0 <= i < p.len() ==> boundary(bits, w, h, #[trigger] step(p, i)),
        forall|i: int| 0 <= i < p.len() ==> next(bits, w, h, #[trigger] step(p, i)) == step(p, (i + 1) % p.len() as int),
    ensures
        p.len() >= 4,
{
    reveal(step);
    reveal(next);
    reveal(boundary);
    let n = p.len() as int;
    if n == 1 {
        lemma_succ_mod(0, n);
        assert(boundary(bits, w, h, step(p, 0)));
    } else if n == 2 {
        lemma_succ_mod(0, n);
        lemma_succ_mod(1, n);
        assert(boundary(bits, w, h, step(p, 0)));
        assert(boundary(bits, w, h, step(p, 1)));
        assert(next(bits, w, h, step(p, 0)) == step(p, 1));
    } else if n == 3 {
        lemma_succ_mod(0, n);
        lemma_succ_mod(1, n);
        lemma_succ_mod(2, n);
        assert(boundary(bits, w, h, step(p, 0)));
        assert(boundary(bits, w, h, step(p, 1)));
        assert(boundary(bits, w, h, step(p, 2)));
    }
}

/// Every point of the path lies on the pixel-corner lattice of a `w × h` image.
pub open spec fn corners_in(path: Seq<Pt>, w: int, h: int) -> bool {
    forall|k: int| 0 <= k < path.len() ==> 0 <= #[trigger] path[k].x <= w && 0 <= path[k].y <= h
}

/// Contour tracing of a binary image of `width × height` pixels, row-major in the first
/// `width * height` entries of `bits` (1 for a filled pixel, anything else empty). Each returned path is a closed boundary loop given by
/// its corners in order, the last corner leading back to the first: every step is a unit
/// edge of the pixel-corner lattice with a filled pixel on its right and an empty one on its
/// left, so outlines run clockwise and holes counterclockwise (y down). At a corner where two
/// filled pixels touch diagonally the walk turns right, so such pixels get separate outlines.
/// Every boundary edge of the image is a step of exactly one path. Lattice slots are scanned
/// in order (horizontal rows first, then vertical) and a loop is traced from each boundary
/// edge not yet on a path; an auxiliary array of slots records the edges already traced.
#[verifier::rlimit(100)]
pub fn bits_to_paths(width: usize, height: usize, bits: &Vec<i8>) -> (paths: Vec<Vec<Pt>>)
    requires
        1 <= width <= MAX_IMAGE_SIDE,
        1 <= height <= MAX_IMAGE_SIDE,
        bits@.len() >= width * height,
    ensures
        forall|k: int| 0 <= k < paths@.len() ==> (#[trigger] paths@[k])@.len() >= 4
            && corners_in(paths@[k]@, width as int, height as int),
        forall|k: int, i: int| 0 <= k < paths@.len() && 0 <= i < paths@[k]@.len()
            ==> boundary(bits@, width as int, height as int, #[trigger] step(paths@[k]@, i)),
        forall|k: int, i: int| 0 <= k < paths@.len() && 0 <= i < paths@[k]@.len()
            ==> next(bits@, width as int, height as int, #[trigger] step(paths@[k]@, i))
                == step(paths@[k]@, (i + 1) % paths@[k]@.len() as int),
        forall|e: Edge| #[trigger] boundary(bits@, width as int, height as int, e)
            ==> exists|k: int, i: int| 0 <= k < paths@.len() && 0 <= i < paths@[k]@.len()
                && #[trigger] step(paths@[k]@, i) == e,
        forall|k1: int, i1: int, k2: int, i2: int|
            0 <= k1 < paths@.len() && 0 <= i1 < paths@[k1]@.len() && 0 <= k2 < paths@.len() && 0 <= i2 < paths@[k2]@.len()
            && #[trigger] step(paths@[k1]@, i1) == #[trigger] step(paths@[k2]@, i2) ==> k1 == k2 && i1 == i2,
        paths@.len() == 0 <==> forall|x: int, y: int| !#[trigger] pix(bits@, width as int, height as int, x, y),
{
    let w = width;
    let h = height;
    let ghost (bs, ws, hs) = (bits@, w as int, h as int);
    proof {
        assert((h + 1) * w + h * (w + 1) <= 1025 * 1024 + 1024 * 1025) by (nonlinear_arith)
            requires w <= 1024, h <= 1024;
    }
    let total = (h + 1) * w + h * (w + 1);
    let mut marks: Vec<bool> = vec![false; total];
    let mut paths: Vec<Vec<Pt>> = Vec::new();
    let ghost mut ps: Seq<Seq<Pt>> = Seq::empty();
    proof {
        reveal(paths_ok);
        reveal(steps_unique);
        reveal(marked_on_paths);
        reveal(covered_below);
        assert forall|e: Edge| #[trigger] boundary(bs, ws, hs, e) && marks@[slot(ws, hs, e)]
            implies exists|k: int, i: int| 0 <= k < ps.len() && 0 <= i < ps[k].len() && #[trigger] step(ps[k], i) == e by {
            lemma_slot(bs, ws, hs, e, e);
        }
        assert forall|e: Edge| #[trigger] boundary(bs, ws, hs, e) && slot(ws, hs, e) < 0
            implies marks@[slot(ws, hs, e)] by {
            lemma_slot(bs, ws, hs, e, e);
        }
    }
    let mut t: usize = 0;
    while t < total
        invariant
            image_ok(bs, ws, hs),
            bs == bits@,
            ws == w,
            hs == h,
            total == slots(ws, hs),
            t <= total,
            marks@.len() == total,
            paths@.len() == ps.len(),
            forall|k: int| 0 <= k < ps.len() ==> #[trigger] paths@[k]@ == ps[k],
            paths_ok(bs, ws, hs, marks@, ps),
            steps_unique(ps),
            marked_on_paths(bs, ws, hs, marks@, ps),
            covered_below(bs, ws, hs, marks@, t as int),
        decreases total - t,
    {
        let (ax, ay, d1, bx, by, d2) = slot_edges(w, h, t);
        let start = if is_boundary(bits, w, h, ax, ay, d1) {
            Some((ax, ay, d1))
        } else if is_boundary(bits, w, h, bx, by, d2) {
            Some((bx, by, d2))
        } else {
            None
        };
        let mut traced = false;
        if let Some((sx, sy, sd)) = start {
            if !marks[t] {
                let ghost e0: Edge = (sx as int, sy as int, sd as int);
                let ghost old_marks = marks@;
                let ghost old_ps = ps;
                proof {
                    lemma_pred_closed(bs, ws, hs, marks@, ps);
                }
                let (p, walk) = trace(bits, w, h, &mut marks, sx, sy, sd);
                proof {
                    lemma_after_trace(bs, ws, hs, old_marks, marks@, old_ps, p@, walk@, e0, t as int);
                    ps = ps.push(p@);
                }
                let ghost old_paths = paths@;
                paths.push(p);
                proof {
                    assert forall|k: int| 0 <= k < ps.len() implies #[trigger] paths@[k]@ == ps[k] by {
                        if k < old_ps.len() {
                            assert(paths@[k] == old_paths[k]);
                        }
                    }
                }
                traced = true;
            }
        }
        proof {
            if !traced {
                reveal(covered_below);
                assert forall|e: Edge| #[trigger] boundary(bs, ws, hs, e) && slot(ws, hs, e) < t + 1
                    implies marks@[slot(ws, hs, e)] by {
                    lemma_slot(bs, ws, hs, e, e);
                    if slot(ws, hs, e) == t {
                        lemma_slot_pair(bs, ws, hs, e, ax as int, ay as int, d1 as int, bx as int, by as int, d2 as int, t as int);
                    }
                }
            }
        }
        t += 1;
    }
    proof {
        reveal(paths_ok);
        reveal(marked_on_paths);
        reveal(steps_unique);
        reveal(covered_below);
        assert forall|k: int| 0 <= k < paths@.len() implies (#[trigger] paths@[k])@.len() >= 4
            && corners_in(paths@[k]@, ws, hs) by {
            assert(paths@[k]@ == ps[k]);
            assert(ps[k].len() >= 1);
            assert forall|i: int| 0 <= i < ps[k].len() implies boundary(bs, ws, hs, #[trigger] step(ps[k], i)) by {}
            assert forall|i: int| 0 <= i < ps[k].len()
                implies next(bs, ws, hs, #[trigger] step(ps[k], i)) == step(ps[k], (i + 1) % ps[k].len() as int) by {}
            lemma_loop_len(bs, ws, hs, ps[k]);
            assert forall|i: int| 0 <= i < ps[k].len() implies 0 <= #[trigger] ps[k][i].x <= ws && 0 <= ps[k][i].y <= hs by {
                reveal(step);
                lemma_slot(bs, ws, hs, step(ps[k], i), step(ps[k], i));
            }
        }
        assert forall|k: int, i: int| 0 <= k < paths@.len() && 0 <= i < paths@[k]@.len()
            implies boundary(bs, ws, hs, #[trigger] step(paths@[k]@, i)) by {
            assert(paths@[k]@ == ps[k]);
        }
        assert forall|k: int, i: int| 0 <= k < paths@.len() && 0 <= i < paths@[k]@.len()
            implies next(bs, ws, hs, #[trigger] step(paths@[k]@, i)) == step(paths@[k]@, (i + 1) % paths@[k]@.len() as int) by {
            assert(paths@[k]@ == ps[k]);
        }
        assert forall|k1: int, i1: int, k2: int, i2: int|
            0 <= k1 < paths@.len() && 0 <= i1 < paths@[k1]@.len() && 0 <= k2 < paths@.len() && 0 <= i2 < paths@[k2]@.len()
            && #[trigger] step(paths@[k1]@, i1) == #[trigger] step(paths@[k2]@, i2) implies k1 == k2 && i1 == i2 by {
            assert(paths@[k1]@ == ps[k1] && paths@[k2]@ == ps[k2]);
        }
        assert forall|e: Edge| #[trigger] boundary(bs, ws, hs, e)
            implies exists|k: int, i: int| 0 <= k < paths@.len() && 0 <= i < paths@[k]@.len()
                && #[trigger] step(paths@[k]@, i) == e by {
            lemma_slot(bs, ws, hs, e, e);
            let (k, i) = choose|k: int, i: int| 0 <= k < ps.len() && 0 <= i < ps[k].len() && #[trigger] step(ps[k], i) == e;
            assert(paths@[k]@ == ps[k]);
        }
        if paths@.len() == 0 {
            assert forall|x: int, y: int| !#[trigger] pix(bs, ws, hs, x, y) by {
                if pix(bs, ws, hs, x, y) {
                    let e = lemma_top_edge(bs, ws, hs, x, y);
                    lemma_slot(bs, ws, hs, e, e);
                    assert(marks@[slot(ws, hs, e)]);
                }
            }
        } else {
            assert(paths@[0]@ == ps[0]);
            let q = lemma_filled_of_edge(bs, ws, hs, step(ps[0], 0));
            assert(pix(bs, ws, hs, q.0, q.1));
        }
    }
    paths
}

/// The two edges that may run along slot `t`: east then west for a horizontal slot, south
/// then north for a vertical one.
fn slot_edges(w: usize, h: usize, t: usize) -> (r: (i64, i64, i64, i64, i64, i64))
    requires
        1 <= w <= MAX_IMAGE_SIDE,
        1 <= h <= MAX_IMAGE_SIDE,
        t < slots(w as int, h as int),
    ensures
        slot(w as int, h as int, (r.0 as int, r.1 as int, r.2 as int)) == t,
        slot(w as int, h as int, (r.3 as int, r.4 as int, r.5 as int)) == t,
        (r.2 == 0 && r.5 == 2 && r.3 == r.0 + 1 && r.4 == r.1 && 0 <= r.0 < w && 0 <= r.1 <= h)
            || (r.2 == 1 && r.5 == 3 && r.3 == r.0 && r.4 == r.1 + 1 && 0 <= r.0 <= w && 0 <= r.1 < h),
{
    let ghost (wi, hi, ti) = (w as int, h as int, t as int);
    proof {
        assert((h + 1) * w <= 1025 * 1024) by (nonlinear_arith)
            requires w <= 1024, h <= 1024;
    }
    let horizontal = (h + 1) * w;
    if t < horizontal {
        proof {
            vstd::arithmetic::div_mod::lemma_fundamental_div_mod(ti, wi);
            assert(ti / wi <= hi) by (nonlinear_arith)
                requires ti < (hi + 1) * wi, wi >= 1, ti == wi * (ti / wi) + ti % wi, 0 <= ti % wi;
            assert((ti / wi) * wi + ti % wi == ti) by (nonlinear_arith)
                requires ti == wi * (ti / wi) + ti % wi;
        }
        let x = (t % w) as i64;
        let y = (t / w) as i64;
        (x, y, 0, x + 1, y, 2)
    } else {
        let u = t - horizontal;
        let ghost ui = u as int;
        proof {
            vstd::arithmetic::div_mod::lemma_fundamental_div_mod(ui, wi + 1);
            assert(ui / (wi + 1) < hi) by (nonlinear_arith)
                requires ui < hi * (wi + 1), wi >= 1, ui == (wi + 1) * (ui / (wi + 1)) + ui % (wi + 1), 0 <= ui % (wi + 1);
            assert((ui / (wi + 1)) * (wi + 1) + ui % (wi + 1) == ui) by (nonlinear_arith)
                requires ui == (wi + 1) * (ui / (wi + 1)) + ui % (wi + 1);
        }
        let x = (u % (w + 1)) as i64;
        let y = (u / (w + 1)) as i64;
        (x, y, 1, x, y + 1, 3)
    }
}

/// A boundary edge on slot `t` is one of the two edges that may run along it.
proof fn lemma_slot_pair(bits: Seq<i8>, w: int, h: int, e: Edge, ax: int, ay: int, d1: int, bx: int, by: int, d2: int, t: int)
    requires
        w >= 1,
        h >= 1,
        boundary(bits, w, h, e),
        slot(w, h, e) == t,
        slot(w, h, (ax, ay, d1)) == t,
        slot(w, h, (bx, by, d2)) == t,
        (d1 == 0 && d2 == 2 && bx == ax + 1 && by == ay && 0 <= ax < w && 0 <= ay <= h)
            || (d1 == 1 && d2 == 3 && bx == ax && by == ay + 1 && 0 <= ax <= w && 0 <= ay < h),
    ensures
        e == (ax, ay, d1) || e == (bx, by, d2),
{
    lemma_slot_range(bits, w, h, e);
    let (x, y, d) = e;
    if d1 == 0 {
        if d == 0 {
            lemma_row_unique(w, y, x, ay, ax);
        } else if d == 2 {
            lemma_row_unique(w, y, x - 1, ay, ax);
        } else {
            assert(t < (h + 1) * w) by (nonlinear_arith)
                requires t == ay * w + ax, 0 <= ax < w, 0 <= ay <= h;
        }
    } else {
        if d == 1 {
            lemma_row_unique(w + 1, y, x, ay, ax);
        } else if d == 3 {
            lemma_row_unique(w + 1, y - 1, x, ay, ax);
        } else {
            assert(t >= (h + 1) * w) by (nonlinear_arith)
                requires t == (h + 1) * w + ay * (w + 1) + ax, 0 <= ax <= w, 0 <= ay < h;
        }
    }
}
} // verus!
