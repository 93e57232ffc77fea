use vstd::prelude::*;
use crate::grid::Point3;

verus! {

/// Largest magnitude accepted for an atom coordinate or radius, in fixed-point units.
pub const MAX_COORD: i64 = 0x100_0000;

/// A sphere in fixed-point world coordinates: its centre and its radius.
#[derive(Clone, Copy, Debug, PartialEq, Eq, Structural)]
pub struct Atom {
    pub x: i64,
    pub y: i64,
    pub z: i64,
    pub radius: i64,
}

/// The axis-aligned box spanned by a set of spheres, corners included.
#[derive(Clone, Copy, Debug, PartialEq, Eq, Structural)]
pub struct BoundingBox {
    pub min: Point3,
    pub max: Point3,
}

impl Atom {
    /// The centre's coordinate along `axis` (0 for x, 1 for y, 2 for z).
    pub open spec fn axis(&self, axis: int) -> int {
        if axis == 0 {
            self.x as int
        } else if axis == 1 {
            self.y as int
        } else {
            self.z as int
        }
    }

    /// The centre lies within `bound` of the origin on every axis and the radius in `[0, bound]`.
    pub open spec fn within(&self, bound: int) -> bool {
        &&& -bound <= self.x <= bound
        &&& -bound <= self.y <= bound
        &&& -bound <= self.z <= bound
        &&& 0 <= self.radius <= bound
    }
}

/// Every atom lies within `bound` (see `Atom::within`).
pub open spec fn all_within(s: Seq<Atom>, bound: int) -> bool {
    forall|i: int| 0 <= i < s.len() ==> #[trigger] s[i].within(bound)
}

/// Smallest `centre - radius` along `axis` over the non-empty sequence `s`.
pub open spec fn lo(s: Seq<Atom>, axis: int) -> int
    decreases s.len(),
{
    if s.len() <= 1 {
        s[0].axis(axis) - s[0].radius
    } else {
        let rest = lo(s.drop_last(), axis);
        let here = s.last().axis(axis) - s.last().radius;
        if here < rest { here } else { rest }
    }
}

/// Largest `centre + radius` along `axis` over the non-empty sequence `s`.
pub open spec fn hi(s: Seq<Atom>, axis: int) -> int
    decreases s.len(),
{
    if s.len() <= 1 {
        s[0].axis(axis) + s[0].radius
    } else {
        let rest = hi(s.drop_last(), axis);
        let here = s.last().axis(axis) + s.last().radius;
        if here > rest { here } else { rest }
    }
}

/// `b` is the bounding box of the non-empty sequence `s`.
pub open spec fn is_bounding_box(s: Seq<Atom>, b: BoundingBox) -> bool {
    forall|axis: int| 0 <= axis < 3 ==> #[trigger] b.min.axis(axis) == lo(s, axis) && b.max.axis(axis) == hi(s, axis)
}

/// The atom moved by `-c`.
pub open spec fn shifted(a: Atom, c: Point3) -> Atom {
    Atom { x: (a.x - c.x) as i64, y: (a.y - c.y) as i64, z: (a.z - c.z) as i64, radius: a.radius }
}

/// The bounds of an atom lie inside the bounding box of any sequence holding it; in
/// particular the box's minimum is at most its maximum on every axis.
pub proof fn lemma_bounds_contain(s: Seq<Atom>, axis: int, i: int)
    requires
        0 <= i < s.len(),
        forall|k: int| 0 <= k < s.len() ==> #[trigger] s[k].radius >= 0,
    ensures
        lo(s, axis) <= s[i].axis(axis) - s[i].radius,
        s[i].axis(axis) + s[i].radius <= hi(s, axis),
        lo(s, axis) <= hi(s, axis),
    decreases s.len(),
{
    if s.len() > 1 {
        if i < s.len() - 1 {
            lemma_bounds_contain(s.drop_last(), axis, i);
        } else {
            lemma_bounds_contain(s.drop_last(), axis, 0);
        }
    }
}

/// Moving every atom moves both bounds by the same amount.
pub proof fn lemma_bounds_shift(s: Seq<Atom>, t: Seq<Atom>, c: Point3, axis: int)
    requires
        s.len() >= 1,
        t.len() == s.len(),
        0 <= axis < 3,
        forall|k: int| 0 <= k < s.len() ==> #[trigger] t[k].axis(axis) == s[k].axis(axis) - c.axis(axis)
            && t[k].radius == s[k].radius,
    ensures
        lo(t, axis) == lo(s, axis) - c.axis(axis),
        hi(t, axis) == hi(s, axis) - c.axis(axis),
    decreases s.len(),
{
    if s.len() > 1 {
        lemma_bounds_shift(s.drop_last(), t.drop_last(), c, axis);
    }
}

/// The bounding box of the atoms; `None` when there are none.
pub fn bounding_box(atoms: &Vec<Atom>) -> (r: Option<BoundingBox>)
    requires
        all_within(atoms@, MAX_COORD as int * 4),
    ensures
        atoms@.len() == 0 <==> r.is_none(),
        match r {
            Some(b) => is_bounding_box(atoms@, b),
            None => true,
        },
{
    if atoms.len() == 0 {
        return None;
    }
    let a0 = atoms[0];
    proof {
        assert(atoms@[0].within(MAX_COORD as int * 4));
    }
    let mut min = Point3 { x: a0.x - a0.radius, y: a0.y - a0.radius, z: a0.z - a0.radius };
    let mut max = Point3 { x: a0.x + a0.radius, y: a0.y + a0.radius, z: a0.z + a0.radius };
    let mut i: usize = 1;
    while i < atoms.len()
        invariant
            1 <= i <= atoms@.len(),
            all_within(atoms@, MAX_COORD as int * 4),
            forall|axis: int| 0 <= axis < 3 ==> #[trigger] min.axis(axis) == lo(atoms@.subrange(0, i as int), axis)
                && max.axis(axis) == hi(atoms@.subrange(0, i as int), axis),
            -(MAX_COORD as int) * 8 <= min.x <= MAX_COORD as int * 8,
            -(MAX_COORD as int) * 8 <= min.y <= MAX_COORD as int * 8,
            -(MAX_COORD as int) * 8 <= min.z <= MAX_COORD as int * 8,
            -(MAX_COORD as int) * 8 <= max.x <= MAX_COORD as int * 8,
            -(MAX_COORD as int) * 8 <= max.y <= MAX_COORD as int * 8,
            -(MAX_COORD as int) * 8 <= max.z <= MAX_COORD as int * 8,
        decreases atoms@.len() - i,
    {
        let a = atoms[i];
        proof {
            assert(atoms@[i as int].within(MAX_COORD as int * 4));
            assert(atoms@.subrange(0, i + 1).drop_last() =~= atoms@.subrange(0, i as int));
            assert(atoms@.subrange(0, i + 1).last() == a);
        }
        let ghost old_min = min;
        let ghost old_max = max;
        if a.x - a.radius < min.x {
            min.x = a.x - a.radius;
        }
        if a.y - a.radius < min.y {
            min.y = a.y - a.radius;
        }
        if a.z - a.radius < min.z {
            min.z = a.z - a.radius;
        }
        if a.x + a.radius > max.x {
            max.x = a.x + a.radius;
        }
        if a.y + a.radius > max.y {
            max.y = a.y + a.radius;
        }
        if a.z + a.radius > max.z {
            max.z = a.z + a.radius;
        }
        proof {
            let t = atoms@.subrange(0, i + 1);
            assert forall|axis: int| 0 <= axis < 3 implies #[trigger] min.axis(axis) == lo(t, axis)
                && max.axis(axis) == hi(t, axis) by {
                assert(old_min.axis(axis) == lo(atoms@.subrange(0, i as int), axis));
                assert(old_max.axis(axis) == hi(atoms@.subrange(0, i as int), axis));
            }
        }
        i += 1;
    }
    proof {
        assert(atoms@.subrange(0, atoms@.len() as int) =~= atoms@);
    }
    Some(BoundingBox { min, max })
}

/// Floor of `s / 2`.
fn half_floor(s: i64) -> (c: i64)
    requires
        -0x1000_0000_0000 <= s <= 0x1000_0000_0000,
    ensures
        2 * c <= s <= 2 * c + 1,
{
    if s >= 0 {
        s / 2
    } else {
        -((1 - s) / 2)
    }
}

/// Translates the atoms so that the centre of their bounding box, rounded down to a whole
/// unit, is the origin; returns that centre. Atoms are left as they are when there are none.
pub fn center_atoms(atoms: &mut Vec<Atom>) -> (r: Option<Point3>)
    requires
        all_within(old(atoms)@, MAX_COORD as int),
    ensures
        final(atoms)@.len() == old(atoms)@.len(),
        old(atoms)@.len() == 0 <==> r.is_none(),
        match r {
            None => final(atoms)@ == old(atoms)@,
            Some(c) => {
                &&& forall|axis: int| 0 <= axis < 3 ==> #[trigger] (2 * c.axis(axis))
                    <= lo(old(atoms)@, axis) + hi(old(atoms)@, axis) <= 2 * c.axis(axis) + 1
                &&& forall|i: int| 0 <= i < old(atoms)@.len() ==> #[trigger] final(atoms)@[i] == shifted(old(atoms)@[i], c)
                &&& forall|axis: int| 0 <= axis < 3 ==> 0 <= #[trigger] lo(final(atoms)@, axis) + hi(final(atoms)@, axis) <= 1
                &&& forall|axis: int| 0 <= axis < 3 ==> #[trigger] lo(final(atoms)@, axis) <= hi(final(atoms)@, axis)
                &&& all_within(final(atoms)@, MAX_COORD as int * 4)
            },
        },
{
    let ghost s0 = atoms@;
    proof {
        assert forall|k: int| 0 <= k < s0.len() implies #[trigger] s0[k].within(MAX_COORD as int * 4) by {
            assert(s0[k].within(MAX_COORD as int));
        }
    }
    let found = bounding_box(atoms);
    if found.is_none() {
        return None;
    }
    let b = found.unwrap();
    proof {
        assert(is_bounding_box(s0, b));
        assert(b.min.axis(0) == lo(s0, 0));
        assert(b.max.axis(0) == hi(s0, 0));
        assert(b.min.axis(1) == lo(s0, 1) && b.max.axis(1) == hi(s0, 1));
        assert(b.min.axis(2) == lo(s0, 2) && b.max.axis(2) == hi(s0, 2));
        lemma_lo_hi_range(s0, 0, MAX_COORD as int);
        lemma_lo_hi_range(s0, 1, MAX_COORD as int);
        lemma_lo_hi_range(s0, 2, MAX_COORD as int);
    }
    let c = Point3 {
        x: half_floor(b.min.x + b.max.x),
        y: half_floor(b.min.y + b.max.y),
        z: half_floor(b.min.z + b.max.z),
    };
    let mut i: usize = 0;
    while i < atoms.len()
        invariant
            atoms@.len() == s0.len(),
            i <= s0.len(),
            all_within(s0, MAX_COORD as int),
            -(MAX_COORD as int) * 2 <= c.x <= MAX_COORD as int * 2,
            -(MAX_COORD as int) * 2 <= c.y <= MAX_COORD as int * 2,
            -(MAX_COORD as int) * 2 <= c.z <= MAX_COORD as int * 2,
            forall|k: int| 0 <= k < i ==> #[trigger] atoms@[k] == shifted(s0[k], c),
            forall|k: int| i <= k < s0.len() ==> #[trigger] atoms@[k] == s0[k],
        decreases s0.len() - i,
    {
        let a = atoms[i];
        proof {
            assert(s0[i as int].within(MAX_COORD as int));
        }
        let moved = Atom { x: a.x - c.x, y: a.y - c.y, z: a.z - c.z, radius: a.radius };
        atoms.set(i, moved);
        i += 1;
    }
    proof {
        let t = atoms@;
        assert forall|axis: int| 0 <= axis < 3 implies 0 <= #[trigger] lo(t, axis) + hi(t, axis) <= 1
            && lo(t, axis) <= hi(t, axis) by {
            assert forall|k: int| 0 <= k < s0.len() implies #[trigger] t[k].axis(axis) == s0[k].axis(axis) - c.axis(axis)
                && t[k].radius == s0[k].radius by {
                assert(t[k] == shifted(s0[k], c));
                assert(s0[k].within(MAX_COORD as int));
            }
            lemma_bounds_shift(s0, t, c, axis);
            assert forall|k: int| 0 <= k < t.len() implies #[trigger] t[k].radius >= 0 by {
                assert(s0[k].within(MAX_COORD as int));
            }
            lemma_bounds_contain(t, axis, 0);
        }
        assert forall|k: int| 0 <= k < t.len() implies #[trigger] t[k].within(MAX_COORD as int * 4) by {
            assert(t[k] == shifted(s0[k], c));
            assert(s0[k].within(MAX_COORD as int));
        }
    }
    Some(c)
}

/// The bounds of atoms within `bound` lie within twice that.
pub proof fn lemma_lo_hi_range(s: Seq<Atom>, axis: int, bound: int)
    requires
        s.len() >= 1,
        all_within(s, bound),
    ensures
        -2 * bound <= lo(s, axis) <= 2 * bound,
        -2 * bound <= hi(s, axis) <= 2 * bound,
    decreases s.len(),
{
    assert(s[0].within(bound));
    assert(s.last().within(bound));
    if s.len() > 1 {
        lemma_lo_hi_range(s.drop_last(), axis, bound);
    }
}

} // verus!
