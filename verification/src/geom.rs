//! Integer geometry: positions, axis-aligned boxes and half-space planes.
//!
//! Coordinates are fixed-point integers in the open cube
//! `(-COORD_LIMIT, COORD_LIMIT)` on every axis.  A half-space plane is the
//! predicate `a*x + b*y + c*z + d >= 0` with bounded integer coefficients, so
//! every evaluation fits comfortably in an `i128` and all geometric tests are
//! exact.

use vstd::prelude::*;

verus! {

use vstd::arithmetic::mul::lemma_mul_inequality;

/// Positions are bounded by this on every axis (exclusive): 2^30.
pub const COORD_LIMIT: i64 = 1073741824;

/// Bound (inclusive) on the magnitude of a plane's direction coefficients: 2^32.
pub const PLANE_COEF_LIMIT: i64 = 4294967296;

/// Bound (inclusive) on the magnitude of a plane's offset coefficient: 2^62.
pub const PLANE_OFFSET_LIMIT: i64 = 4611686018427387904;

/// A point position in fixed-point integer coordinates.
#[derive(Clone, Copy, PartialEq, Eq, Structural, Debug)]
pub struct Pos {
    pub x: i64,
    pub y: i64,
    pub z: i64,
}

/// An axis-aligned box, inclusive on both ends.
#[derive(Clone, Copy, PartialEq, Eq, Structural, Debug)]
pub struct Aabb {
    pub min: Pos,
    pub max: Pos,
}

/// The half space `a*x + b*y + c*z + d >= 0`.
#[derive(Clone, Copy, PartialEq, Eq, Structural, Debug)]
pub struct Plane {
    pub a: i64,
    pub b: i64,
    pub c: i64,
    pub d: i64,
}

impl Pos {
    /// The position lies strictly inside the coordinate cube.
    pub open spec fn wf(self) -> bool {
        -COORD_LIMIT < self.x < COORD_LIMIT
        && -COORD_LIMIT < self.y < COORD_LIMIT
        && -COORD_LIMIT < self.z < COORD_LIMIT
    }

    /// Executable check of `wf`.
    pub fn is_wf(&self) -> (r: bool)
        ensures
            r == self.wf(),
    {
        -COORD_LIMIT < self.x && self.x < COORD_LIMIT
        && -COORD_LIMIT < self.y && self.y < COORD_LIMIT
        && -COORD_LIMIT < self.z && self.z < COORD_LIMIT
    }
}

impl Aabb {
    /// A well-formed box has well-formed corners in increasing order.
    pub open spec fn wf(self) -> bool {
        self.min.wf() && self.max.wf()
        && self.min.x <= self.max.x
        && self.min.y <= self.max.y
        && self.min.z <= self.max.z
    }

    /// Executable check of `wf`.
    pub fn is_wf(&self) -> (r: bool)
        ensures
            r == self.wf(),
    {
        self.min.is_wf() && self.max.is_wf()
        && self.min.x <= self.max.x
        && self.min.y <= self.max.y
        && self.min.z <= self.max.z
    }

    /// The box contains the position (inclusive on all faces).
    pub open spec fn contains(self, p: Pos) -> bool {
        self.min.x <= p.x <= self.max.x
        && self.min.y <= p.y <= self.max.y
        && self.min.z <= p.z <= self.max.z
    }

    /// Executable containment test.
    pub fn contains_point(&self, p: &Pos) -> (r: bool)
        ensures
            r == self.contains(*p),
    {
        self.min.x <= p.x && p.x <= self.max.x
        && self.min.y <= p.y && p.y <= self.max.y
        && self.min.z <= p.z && p.z <= self.max.z
    }

    /// Every position of `self` is also in `outer`.
    pub open spec fn inside(self, outer: Aabb) -> bool {
        outer.min.x <= self.min.x && self.max.x <= outer.max.x
        && outer.min.y <= self.min.y && self.max.y <= outer.max.y
        && outer.min.z <= self.min.z && self.max.z <= outer.max.z
    }

    /// Executable box-in-box test.
    pub fn is_inside(&self, outer: &Aabb) -> (r: bool)
        ensures
            r == self.inside(*outer),
    {
        outer.min.x <= self.min.x && self.max.x <= outer.max.x
        && outer.min.y <= self.min.y && self.max.y <= outer.max.y
        && outer.min.z <= self.min.z && self.max.z <= outer.max.z
    }

    /// The two boxes share at least one position.
    pub open spec fn overlaps(self, other: Aabb) -> bool {
        self.min.x <= other.max.x && other.min.x <= self.max.x
        && self.min.y <= other.max.y && other.min.y <= self.max.y
        && self.min.z <= other.max.z && other.min.z <= self.max.z
    }

    /// Executable overlap test.
    pub fn overlaps_box(&self, other: &Aabb) -> (r: bool)
        ensures
            r == self.overlaps(*other),
    {
        self.min.x <= other.max.x && other.min.x <= self.max.x
        && self.min.y <= other.max.y && other.min.y <= self.max.y
        && self.min.z <= other.max.z && other.min.z <= self.max.z
    }

    /// Containment of a point carries over to any enclosing box.
    pub proof fn lemma_inside_transfers(self, outer: Aabb, p: Pos)
        requires
            self.inside(outer),
            self.contains(p),
        ensures
            outer.contains(p),
    {
    }

    /// A box disjoint from another (no overlap) shares no position with it.
    pub proof fn lemma_no_overlap_no_common_point(self, other: Aabb, p: Pos)
        requires
            !self.overlaps(other),
            self.contains(p),
        ensures
            !other.contains(p),
    {
    }
}

impl Plane {
    /// Coefficients are small enough that evaluation at any well-formed
    /// position stays far inside the `i128` range.
    pub open spec fn wf(self) -> bool {
        -PLANE_COEF_LIMIT <= self.a <= PLANE_COEF_LIMIT
        && -PLANE_COEF_LIMIT <= self.b <= PLANE_COEF_LIMIT
        && -PLANE_COEF_LIMIT <= self.c <= PLANE_COEF_LIMIT
        && -PLANE_OFFSET_LIMIT <= self.d <= PLANE_OFFSET_LIMIT
    }

    /// Executable check of `wf`.
    pub fn is_wf(&self) -> (r: bool)
        ensures
            r == self.wf(),
    {
        -PLANE_COEF_LIMIT <= self.a && self.a <= PLANE_COEF_LIMIT
        && -PLANE_COEF_LIMIT <= self.b && self.b <= PLANE_COEF_LIMIT
        && -PLANE_COEF_LIMIT <= self.c && self.c <= PLANE_COEF_LIMIT
        && -PLANE_OFFSET_LIMIT <= self.d && self.d <= PLANE_OFFSET_LIMIT
    }

    /// The signed value `a*x + b*y + c*z + d` at a position.
    pub open spec fn eval(self, p: Pos) -> int {
        self.a * p.x + self.b * p.y + self.c * p.z + self.d
    }

    /// The position lies in the closed half space.
    pub open spec fn inside(self, p: Pos) -> bool {
        self.eval(p) >= 0
    }

    /// Bound on one coefficient-coordinate product, used for overflow safety.
    proof fn lemma_term_bound(coef: int, coord: int, cbound: int, xbound: int)
        requires
            -cbound <= coef <= cbound,
            -xbound < coord < xbound,
            0 <= cbound,
            0 < xbound,
        ensures
            -(cbound * xbound) <= coef * coord <= cbound * xbound,
    {
        assert(-(cbound * xbound) <= coef * coord <= cbound * xbound) by (nonlinear_arith)
            requires
                -cbound <= coef <= cbound,
                -xbound <= coord <= xbound,
                0 <= cbound,
                0 <= xbound,
        ;
    }

    /// Exact evaluation of the plane at a position.
    pub fn eval_at(&self, p: &Pos) -> (r: i128)
        requires
            self.wf(),
            p.wf(),
        ensures
            r == self.eval(*p),
    {
        proof {
            Self::lemma_term_bound(self.a as int, p.x as int, PLANE_COEF_LIMIT as int, COORD_LIMIT as int);
            Self::lemma_term_bound(self.b as int, p.y as int, PLANE_COEF_LIMIT as int, COORD_LIMIT as int);
            Self::lemma_term_bound(self.c as int, p.z as int, PLANE_COEF_LIMIT as int, COORD_LIMIT as int);
        }
        (self.a as i128) * (p.x as i128)
            + (self.b as i128) * (p.y as i128)
            + (self.c as i128) * (p.z as i128)
            + (self.d as i128)
    }

    /// The corner of `b` where the plane value is smallest.
    pub open spec fn low_corner(self, b: Aabb) -> Pos {
        Pos {
            x: if self.a >= 0 { b.min.x } else { b.max.x },
            y: if self.b >= 0 { b.min.y } else { b.max.y },
            z: if self.c >= 0 { b.min.z } else { b.max.z },
        }
    }

    /// The corner of `b` where the plane value is largest.
    pub open spec fn high_corner(self, b: Aabb) -> Pos {
        Pos {
            x: if self.a >= 0 { b.max.x } else { b.min.x },
            y: if self.b >= 0 { b.max.y } else { b.min.y },
            z: if self.c >= 0 { b.max.z } else { b.min.z },
        }
    }

    /// Monotonicity of one linear term over a coordinate interval.
    proof fn lemma_axis_bound(coef: int, lo: int, x: int, hi: int)
        requires
            lo <= x <= hi,
        ensures
            coef >= 0 ==> coef * lo <= coef * x <= coef * hi,
            coef < 0 ==> coef * hi <= coef * x <= coef * lo,
    {
        if coef >= 0 {
            lemma_mul_inequality(lo, x, coef);
            lemma_mul_inequality(x, hi, coef);
        } else {
            assert(coef * hi <= coef * x <= coef * lo) by (nonlinear_arith)
                requires
                    lo <= x <= hi,
                    coef < 0,
            ;
        }
    }

    /// Over an axis-aligned box, the plane value is bracketed by its values
    /// at the two extreme corners.
    pub proof fn lemma_corner_bounds(self, b: Aabb, p: Pos)
        requires
            b.contains(p),
        ensures
            self.eval(self.low_corner(b)) <= self.eval(p),
            self.eval(p) <= self.eval(self.high_corner(b)),
    {
        Self::lemma_axis_bound(self.a as int, b.min.x as int, p.x as int, b.max.x as int);
        Self::lemma_axis_bound(self.b as int, b.min.y as int, p.y as int, b.max.y as int);
        Self::lemma_axis_bound(self.c as int, b.min.z as int, p.z as int, b.max.z as int);
    }
}

/// The position satisfies every half space in the sequence.
pub open spec fn planes_contain(ps: Seq<Plane>, p: Pos) -> bool {
    forall|i: int| 0 <= i < ps.len() ==> #[trigger] ps[i].inside(p)
}

/// All planes in the sequence are well formed.
pub open spec fn planes_wf(ps: Seq<Plane>) -> bool {
    forall|i: int| 0 <= i < ps.len() ==> #[trigger] ps[i].wf()
}

/// Executable test that a position satisfies every half space.
pub fn planes_contain_point(ps: &Vec<Plane>, p: &Pos) -> (r: bool)
    requires
        planes_wf(ps@),
        p.wf(),
    ensures
        r == planes_contain(ps@, *p),
{
    let mut i: usize = 0;
    while i < ps.len()
        invariant
            0 <= i <= ps.len(),
            planes_wf(ps@),
            p.wf(),
            forall|j: int| 0 <= j < i ==> #[trigger] ps@[j].inside(*p),
        decreases ps.len() - i,
    {
        if ps[i].eval_at(p) < 0 {
            assert(!ps@[i as int].inside(*p));
            return false;
        }
        i += 1;
    }
    true
}

} // verus!
