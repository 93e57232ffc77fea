use vstd::prelude::*;

verus! {

/// Largest magnitude of a polyline coordinate.
pub const MAX_PT: i64 = 0x1_0000;

/// Largest numerator or denominator of a simplification tolerance.
pub const MAX_TOL: u64 = 0x100_0000;

/// A point of a polyline in whole pixel units.
#[derive(Clone, Copy, Debug, PartialEq, Eq, Structural)]
pub struct Pt {
    pub x: i64,
    pub y: i64,
}

/// All points lie within `MAX_PT` of the origin on both axes.
pub open spec fn pts_ok(pts: Seq<Pt>) -> bool {
    forall|i: int| 0 <= i < pts.len() ==> -MAX_PT <= #[trigger] pts[i].x <= MAX_PT && -MAX_PT <= pts[i].y <= MAX_PT
}

/// Twice the signed area of the triangle `a, b, p`: the distance from `p` to the line
/// through `a` and `b`, times `|ab|`.
pub open spec fn cross(a: Pt, b: Pt, p: Pt) -> int {
    (b.y - a.y) * p.x - (b.x - a.x) * p.y + b.x * a.y - b.y * a.x
}

/// Squared length of the chord `ab`, or 1 when `a == b`.
pub open spec fn chord2(a: Pt, b: Pt) -> int {
    if a == b {
        1
    } else {
        (b.x - a.x) * (b.x - a.x) + (b.y - a.y) * (b.y - a.y)
    }
}

/// The squared deviation of `p` from the chord `ab`, times `chord2(a, b)`: the squared
/// perpendicular distance to the line, or the squared distance to `a` when the chord is a point.
pub open spec fn dev2(a: Pt, b: Pt, p: Pt) -> int {
    if a == b {
        (p.x - a.x) * (p.x - a.x) + (p.y - a.y) * (p.y - a.y)
    } else {
        cross(a, b, p) * cross(a, b, p)
    }
}

/// The deviation of `p` from the chord `ab` exceeds the tolerance `num / den`.
pub open spec fn exceeds(a: Pt, b: Pt, p: Pt, num: int, den: int) -> bool {
    dev2(a, b, p) * (den * den) > (num * num) * chord2(a, b)
}

/// Among the points strictly between `lo` and `k`, the first of largest deviation from the
/// chord `pts[lo] pts[hi]`; `lo` itself, of deviation zero, when none deviates.
pub open spec fn farthest(pts: Seq<Pt>, lo: int, hi: int, k: int) -> int
    decreases k - lo,
{
    if k <= lo + 1 {
        lo
    } else {
        let b = farthest(pts, lo, hi, k - 1);
        if dev2(pts[lo], pts[hi], pts[k - 1]) > dev2(pts[lo], pts[hi], pts[b]) {
            k - 1
        } else {
            b
        }
    }
}

/// Douglas–Peucker simplification of `pts[lo..=hi]`: split at the farthest point when it
/// deviates from the chord by more than the tolerance and simplify both halves, otherwise
/// keep only the two ends.
pub open spec fn simplified(pts: Seq<Pt>, lo: int, hi: int, num: int, den: int) -> Seq<Pt>
    decreases hi - lo,
{
    let f = farthest(pts, lo, hi, hi);
    if lo < f < hi && exceeds(pts[lo], pts[hi], pts[f], num, den) {
        simplified(pts, lo, f, num, den).drop_last() + simplified(pts, f, hi, num, den)
    } else {
        seq![pts[lo], pts[hi]]
    }
}

proof fn lemma_farthest_range(pts: Seq<Pt>, lo: int, hi: int, k: int)
    ensures
        farthest(pts, lo, hi, k) == lo || lo < farthest(pts, lo, hi, k) < k,
    decreases k - lo,
{
    if k > lo + 1 {
        lemma_farthest_range(pts, lo, hi, k - 1);
    }
}

proof fn lemma_simplified_len(pts: Seq<Pt>, lo: int, hi: int, num: int, den: int)
    ensures
        simplified(pts, lo, hi, num, den).len() >= 2,
    decreases hi - lo,
{
    let f = farthest(pts, lo, hi, hi);
    if lo < f < hi && exceeds(pts[lo], pts[hi], pts[f], num, den) {
        lemma_simplified_len(pts, lo, f, num, den);
        lemma_simplified_len(pts, f, hi, num, den);
    }
}

/// `dev2` and `chord2` of points within `MAX_PT`, computed exactly in 128 bits.
fn deviation(a: Pt, b: Pt, p: Pt) -> (r: (i128, i128))
    requires
        -MAX_PT <= a.x <= MAX_PT && -MAX_PT <= a.y <= MAX_PT,
        -MAX_PT <= b.x <= MAX_PT && -MAX_PT <= b.y <= MAX_PT,
        -MAX_PT <= p.x <= MAX_PT && -MAX_PT <= p.y <= MAX_PT,
    ensures
        r.0 == dev2(a, b, p),
        r.1 == chord2(a, b),
        0 <= r.0 <= 0x40_0000_0000_0000_0000,
        1 <= r.1 <= 0x10_0000_0000,
{
    let (ax, ay, bx, by, px, py) = (a.x as i128, a.y as i128, b.x as i128, b.y as i128, p.x as i128, p.y as i128);
    if a.x == b.x && a.y == b.y {
        proof {
            assert(0 <= (px - ax) * (px - ax) <= 0x4_0000_0000) by (nonlinear_arith)
                requires -0x2_0000 <= px - ax <= 0x2_0000;
            assert(0 <= (py - ay) * (py - ay) <= 0x4_0000_0000) by (nonlinear_arith)
                requires -0x2_0000 <= py - ay <= 0x2_0000;
        }
        ((px - ax) * (px - ax) + (py - ay) * (py - ay), 1)
    } else {
        proof {
            assert(-0x2_0000_0000 <= (by - ay) * px <= 0x2_0000_0000) by (nonlinear_arith)
                requires -0x2_0000 <= by - ay <= 0x2_0000, -0x1_0000 <= px <= 0x1_0000;
            assert(-0x2_0000_0000 <= (bx - ax) * py <= 0x2_0000_0000) by (nonlinear_arith)
                requires -0x2_0000 <= bx - ax <= 0x2_0000, -0x1_0000 <= py <= 0x1_0000;
            assert(-0x1_0000_0000 <= bx * ay <= 0x1_0000_0000) by (nonlinear_arith)
                requires -0x1_0000 <= bx <= 0x1_0000, -0x1_0000 <= ay <= 0x1_0000;
            assert(-0x1_0000_0000 <= by * ax <= 0x1_0000_0000) by (nonlinear_arith)
                requires -0x1_0000 <= by <= 0x1_0000, -0x1_0000 <= ax <= 0x1_0000;
        }
        let c = (by - ay) * px - (bx - ax) * py + bx * ay - by * ax;
        proof {
            assert(0 <= c * c <= 0x40_0000_0000_0000_0000) by (nonlinear_arith)
                requires -0x6_0000_0000 <= c <= 0x6_0000_0000;
            assert(0 <= (bx - ax) * (bx - ax) <= 0x4_0000_0000) by (nonlinear_arith)
                requires -0x2_0000 <= bx - ax <= 0x2_0000;
            assert(0 <= (by - ay) * (by - ay) <= 0x4_0000_0000) by (nonlinear_arith)
                requires -0x2_0000 <= by - ay <= 0x2_0000;
            assert((bx - ax) * (bx - ax) + (by - ay) * (by - ay) >= 1) by (nonlinear_arith)
                requires bx != ax || by != ay;
        }
        (c * c, (bx - ax) * (bx - ax) + (by - ay) * (by - ay))
    }
}

/// Appends the simplification of `pts[lo..=hi]`, its last point left out, to `out`.
fn simplify_range(pts: &Vec<Pt>, lo: usize, hi: usize, num: u64, den: u64, out: &mut Vec<Pt>)
    requires
        lo < hi < pts@.len(),
        pts_ok(pts@),
        num <= MAX_TOL,
        1 <= den <= MAX_TOL,
    ensures
        final(out)@ == old(out)@ + simplified(pts@, lo as int, hi as int, num as int, den as int).drop_last(),
    decreases hi - lo,
{
    let ghost s = pts@;
    let a = pts[lo];
    let b = pts[hi];
    let mut far: usize = lo;
    let mut far_dev: i128 = 0;
    let mut k: usize = lo + 1;
    proof {
        assert(s[lo as int] == a);
        assert(dev2(a, b, a) == 0) by (nonlinear_arith);
    }
    while k < hi
        invariant
            lo < k <= hi < s.len(),
            s == pts@,
            pts_ok(s),
            a == s[lo as int],
            b == s[hi as int],
            far == farthest(s, lo as int, hi as int, k as int),
            far < k,
            far_dev == dev2(a, b, s[far as int]),
        decreases hi - k,
    {
        let p = pts[k];
        proof {
            assert(-MAX_PT <= s[k as int].x <= MAX_PT);
            assert(-MAX_PT <= s[lo as int].x <= MAX_PT && -MAX_PT <= s[hi as int].x <= MAX_PT);
        }
        let (d, _) = deviation(a, b, p);
        if d > far_dev {
            far = k;
            far_dev = d;
        }
        k += 1;
    }
    proof {
        assert(-MAX_PT <= s[lo as int].x <= MAX_PT && -MAX_PT <= s[hi as int].x <= MAX_PT);
        assert(-MAX_PT <= s[far as int].x <= MAX_PT);
        lemma_farthest_range(s, lo as int, hi as int, hi as int);
    }
    let (d, c2) = deviation(a, b, pts[far]);
    proof {
        assert(0 <= num * num <= 0x1_0000_0000_0000) by (nonlinear_arith)
            requires 0 <= num <= 0x100_0000;
        assert(1 <= den * den <= 0x1_0000_0000_0000) by (nonlinear_arith)
            requires 1 <= den <= 0x100_0000;
    }
    let nn = (num as i128) * (num as i128);
    let dd = (den as i128) * (den as i128);
    proof {
        assert(0 <= d * dd <= 0x40_0000_0000_0000_0000 * 0x1_0000_0000_0000) by (nonlinear_arith)
            requires 0 <= d <= 0x40_0000_0000_0000_0000, 1 <= dd <= 0x1_0000_0000_0000;
        assert(0 <= nn * c2 <= 0x1_0000_0000_0000 * 0x10_0000_0000) by (nonlinear_arith)
            requires 0 <= nn <= 0x1_0000_0000_0000, 1 <= c2 <= 0x10_0000_0000;
    }
    if lo < far && d * dd > nn * c2 {
        proof {
            lemma_simplified_len(s, lo as int, far as int, num as int, den as int);
            lemma_simplified_len(s, far as int, hi as int, num as int, den as int);
        }
        simplify_range(pts, lo, far, num, den, out);
        simplify_range(pts, far, hi, num, den, out);
        proof {
            let left = simplified(s, lo as int, far as int, num as int, den as int);
            let right = simplified(s, far as int, hi as int, num as int, den as int);
            assert((left.drop_last() + right).drop_last() =~= left.drop_last() + right.drop_last());
        }
    } else {
        out.push(a);
        proof {
            assert(seq![a, b].drop_last() =~= seq![a]);
        }
    }
}

/// Douglas–Peucker simplification of a polyline with tolerance `tol_num / tol_den` pixels.
/// Polylines of fewer than three points come back unchanged.
pub fn douglas_peucker(points: &Vec<Pt>, tol_num: u64, tol_den: u64) -> (r: Vec<Pt>)
    requires
        pts_ok(points@),
        tol_num <= MAX_TOL,
        1 <= tol_den <= MAX_TOL,
    ensures
        points@.len() < 3 ==> r@ == points@,
        points@.len() >= 3 ==> r@ == simplified(points@, 0, points@.len() - 1, tol_num as int, tol_den as int),
{
    let n = points.len();
    if n < 3 {
        let mut copy: Vec<Pt> = Vec::new();
        let mut i: usize = 0;
        while i < n
            invariant
                i <= n == points@.len(),
                copy@ == points@.subrange(0, i as int),
            decreases n - i,
        {
            copy.push(points[i]);
            proof {
                assert(copy@ =~= points@.subrange(0, i + 1));
            }
            i += 1;
        }
        proof {
            assert(points@.subrange(0, n as int) =~= points@);
        }
        return copy;
    }
    let mut out: Vec<Pt> = Vec::new();
    simplify_range(points, 0, n - 1, tol_num, tol_den, &mut out);
    out.push(points[n - 1]);
    proof {
        let full = simplified(points@, 0, n - 1, tol_num as int, tol_den as int);
        lemma_simplified_len(points@, 0, n - 1, tol_num as int, tol_den as int);
        lemma_simplified_last(points@, 0, n - 1, tol_num as int, tol_den as int);
        assert(out@ =~= full.drop_last().push(full.last()));
        assert(full.drop_last().push(full.last()) =~= full);
    }
    out
}

/// A simplification ends with the last point of its range.
proof fn lemma_simplified_last(pts: Seq<Pt>, lo: int, hi: int, num: int, den: int)
    ensures
        simplified(pts, lo, hi, num, den).last() == pts[hi],
    decreases hi - lo,
{
    let f = farthest(pts, lo, hi, hi);
    if lo < f < hi && exceeds(pts[lo], pts[hi], pts[f], num, den) {
        lemma_simplified_last(pts, f, hi, num, den);
        lemma_simplified_len(pts, f, hi, num, den);
    }
}

} // verus!
