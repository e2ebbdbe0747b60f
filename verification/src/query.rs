//! Query predicates, node volumes, and the three-way node classification.
//!
//! A location predicate selects points; a node owns a bounding volume (a box
//! for octree nodes, a cell for cell-hierarchy nodes).  Classification
//! compares a predicate with a volume and yields `Disjoint`, `Intersects` or
//! `Contains`.  It is proved sound in both directions that matter: a
//! `Disjoint` volume holds no matching point, a `Contains` volume holds only
//! matching points.  Where the volume kind and the predicate kind do not
//! support an exact test, classification conservatively answers
//! `Intersects`, which never loses or fabricates points because the
//! per-point test still runs.

use vstd::prelude::*;

verus! {

use crate::geom::Aabb;
use crate::geom::Plane;
use crate::geom::Pos;
use crate::geom::COORD_LIMIT;
use crate::geom::planes_contain;
use crate::geom::planes_wf;
use crate::geom::planes_contain_point;
use crate::cell::CellId;
use crate::cell::cell_of;
use crate::cell::cell_at;
use crate::cell::lemma_cell_of_nested;
use crate::cell::lemma_common_point_related;
use vstd::arithmetic::power::pow;

/// Fixed-point scale of oriented-box rotation entries: 2^16.
pub const ROT_SCALE: i64 = 65536;

/// The cell is exactly the one containing `p` at its own level.
pub open spec fn cell_covers(c: CellId, p: Pos) -> bool {
    c == cell_of(p, c.level)
}

/// The verdict of comparing a predicate with a node's bounding volume.
#[derive(Clone, Copy, PartialEq, Eq, Structural, Debug)]
pub enum Class {
    Disjoint,
    Intersects,
    Contains,
}

/// A box with its own orientation: a center, half extents along its local
/// axes, and the three rows of a fixed-point rotation matrix.
#[derive(Clone, Copy, PartialEq, Eq, Structural, Debug)]
pub struct OrientedBox {
    pub center: Pos,
    pub half: Pos,
    pub row_x: Pos,
    pub row_y: Pos,
    pub row_z: Pos,
}

/// A node's bounding volume.
#[derive(Clone, Copy, PartialEq, Eq, Structural, Debug)]
pub enum Volume {
    Box(Aabb),
    Cell(CellId),
}

/// A query: the attribute names to return, in the caller's order, and a
/// location predicate selecting points.
#[derive(Clone, Debug)]
pub struct Query {
    pub attributes: Vec<String>,
    pub location: LocationPredicate,
}

/// The geometric half of a query.
#[derive(Clone, Debug)]
pub enum LocationPredicate {
    /// Every point matches.
    AllPoints,
    /// Points inside an axis-aligned box.
    AxisAlignedBox(Aabb),
    /// Points inside an oriented box.
    OrientedBox(OrientedBox),
    /// Points inside the intersection of six half spaces.
    Frustum(Vec<Plane>),
    /// Points whose containing cell lies in an explicit cell set.
    CellUnion(Vec<CellId>),
}

impl OrientedBox {
    /// Rotation rows are bounded by the fixed-point scale, half extents are
    /// non-negative, and everything stays inside the coordinate cube.
    pub open spec fn wf(self) -> bool {
        self.center.wf()
        && 0 <= self.half.x < COORD_LIMIT
        && 0 <= self.half.y < COORD_LIMIT
        && 0 <= self.half.z < COORD_LIMIT
        && -ROT_SCALE <= self.row_x.x <= ROT_SCALE
        && -ROT_SCALE <= self.row_x.y <= ROT_SCALE
        && -ROT_SCALE <= self.row_x.z <= ROT_SCALE
        && -ROT_SCALE <= self.row_y.x <= ROT_SCALE
        && -ROT_SCALE <= self.row_y.y <= ROT_SCALE
        && -ROT_SCALE <= self.row_y.z <= ROT_SCALE
        && -ROT_SCALE <= self.row_z.x <= ROT_SCALE
        && -ROT_SCALE <= self.row_z.y <= ROT_SCALE
        && -ROT_SCALE <= self.row_z.z <= ROT_SCALE
    }

    /// The pair of half spaces bounding the box along one local axis.
    pub open spec fn axis_planes(row: Pos, center: Pos, half: i64) -> (Plane, Plane) {
        let dot = row.x * center.x + row.y * center.y + row.z * center.z;
        (
            Plane { a: row.x, b: row.y, c: row.z, d: (half * ROT_SCALE - dot) as i64 },
            Plane {
                a: (-row.x) as i64,
                b: (-row.y) as i64,
                c: (-row.z) as i64,
                d: (half * ROT_SCALE + dot) as i64,
            },
        )
    }

    /// The six half spaces whose intersection is the oriented box.
    pub open spec fn planes(self) -> Seq<Plane> {
        let (px, nx) = Self::axis_planes(self.row_x, self.center, self.half.x);
        let (py, ny) = Self::axis_planes(self.row_y, self.center, self.half.y);
        let (pz, nz) = Self::axis_planes(self.row_z, self.center, self.half.z);
        seq![px, nx, py, ny, pz, nz]
    }

    /// The derived planes of a well-formed oriented box are well formed.
    pub proof fn lemma_planes_wf(self)
        requires
            self.wf(),
        ensures
            planes_wf(self.planes()),
            self.planes().len() == 6,
    {
        Self::lemma_axis_planes_wf(self.row_x, self.center, self.half.x);
        Self::lemma_axis_planes_wf(self.row_y, self.center, self.half.y);
        Self::lemma_axis_planes_wf(self.row_z, self.center, self.half.z);
        assert forall|i: int| 0 <= i < self.planes().len() implies #[trigger] self.planes()[i].wf() by {
        }
    }

    /// Bounds for the planes of one local axis.
    proof fn lemma_axis_planes_wf(row: Pos, center: Pos, half: i64)
        requires
            -ROT_SCALE <= row.x <= ROT_SCALE,
            -ROT_SCALE <= row.y <= ROT_SCALE,
            -ROT_SCALE <= row.z <= ROT_SCALE,
            center.wf(),
            0 <= half < COORD_LIMIT,
        ensures
            Self::axis_planes(row, center, half).0.wf(),
            Self::axis_planes(row, center, half).1.wf(),
    {
        Self::lemma_dot_bound(row, center);
        assert(half * ROT_SCALE <= (COORD_LIMIT as int) * (ROT_SCALE as int)) by (nonlinear_arith)
            requires
                0 <= half <= COORD_LIMIT as int,
                ROT_SCALE > 0,
        ;
        assert(half * ROT_SCALE >= 0) by (nonlinear_arith)
            requires
                half >= 0,
                ROT_SCALE > 0,
        ;
    }

    /// Bound on the dot product of a rotation row with a position.
    proof fn lemma_dot_bound(row: Pos, p: Pos)
        requires
            -ROT_SCALE <= row.x <= ROT_SCALE,
            -ROT_SCALE <= row.y <= ROT_SCALE,
            -ROT_SCALE <= row.z <= ROT_SCALE,
            p.wf(),
        ensures
            -3 * (ROT_SCALE as int) * (COORD_LIMIT as int)
                <= row.x * p.x + row.y * p.y + row.z * p.z
                <= 3 * (ROT_SCALE as int) * (COORD_LIMIT as int),
            -(ROT_SCALE as int) * (COORD_LIMIT as int) <= row.x * p.x <= (ROT_SCALE as int) * (COORD_LIMIT as int),
            -(ROT_SCALE as int) * (COORD_LIMIT as int) <= row.y * p.y <= (ROT_SCALE as int) * (COORD_LIMIT as int),
            -(ROT_SCALE as int) * (COORD_LIMIT as int) <= row.z * p.z <= (ROT_SCALE as int) * (COORD_LIMIT as int),
    {
        let s = ROT_SCALE as int;
        let c = COORD_LIMIT as int;
        assert(-(s * c) <= row.x * p.x <= s * c) by (nonlinear_arith)
            requires
                -s <= row.x <= s,
                -c <= p.x <= c,
                s > 0,
                c > 0,
        ;
        assert(-(s * c) <= row.y * p.y <= s * c) by (nonlinear_arith)
            requires
                -s <= row.y <= s,
                -c <= p.y <= c,
                s > 0,
                c > 0,
        ;
        assert(-(s * c) <= row.z * p.z <= s * c) by (nonlinear_arith)
            requires
                -s <= row.z <= s,
                -c <= p.z <= c,
                s > 0,
                c > 0,
        ;
    }

    /// Computes the six bounding half spaces.
    pub fn to_planes(&self) -> (r: Vec<Plane>)
        requires
            self.wf(),
        ensures
            r@ == self.planes(),
            planes_wf(r@),
    {
        proof {
            self.lemma_planes_wf();
        }
        let mut r: Vec<Plane> = Vec::new();
        let (px, nx) = Self::axis_planes_exec(&self.row_x, &self.center, self.half.x);
        let (py, ny) = Self::axis_planes_exec(&self.row_y, &self.center, self.half.y);
        let (pz, nz) = Self::axis_planes_exec(&self.row_z, &self.center, self.half.z);
        r.push(px);
        r.push(nx);
        r.push(py);
        r.push(ny);
        r.push(pz);
        r.push(nz);
        proof {
            assert(r@ =~= self.planes());
        }
        r
    }

    /// Executable mirror of `axis_planes`.
    fn axis_planes_exec(row: &Pos, center: &Pos, half: i64) -> (r: (Plane, Plane))
        requires
            -ROT_SCALE <= row.x <= ROT_SCALE,
            -ROT_SCALE <= row.y <= ROT_SCALE,
            -ROT_SCALE <= row.z <= ROT_SCALE,
            center.wf(),
            0 <= half < COORD_LIMIT,
        ensures
            r == Self::axis_planes(*row, *center, half),
    {
        proof {
            Self::lemma_dot_bound(*row, *center);
            assert(half * ROT_SCALE <= (COORD_LIMIT as int) * (ROT_SCALE as int)) by (nonlinear_arith)
                requires
                    0 <= half <= COORD_LIMIT as int,
                    ROT_SCALE > 0,
            ;
            assert(half * ROT_SCALE >= 0) by (nonlinear_arith)
                requires
                    half >= 0,
                    ROT_SCALE > 0,
            ;
        }
        let dot: i64 = row.x * center.x + row.y * center.y + row.z * center.z;
        let scaled: i64 = half * ROT_SCALE;
        (
            Plane { a: row.x, b: row.y, c: row.z, d: scaled - dot },
            Plane { a: -row.x, b: -row.y, c: -row.z, d: scaled + dot },
        )
    }
}

impl Volume {
    /// A well-formed volume.
    pub open spec fn wf(self) -> bool {
        match self {
            Volume::Box(b) => b.wf(),
            Volume::Cell(c) => c.wf(),
        }
    }

    /// Executable check of `wf`.
    pub fn is_wf(&self) -> (r: bool)
        ensures
            r == self.wf(),
    {
        match self {
            Volume::Box(b) => b.is_wf(),
            Volume::Cell(c) => c.is_wf(),
        }
    }

    /// The volume contains a position.  A cell volume contains exactly the
    /// positions whose containing cell at its level it is.
    pub open spec fn contains(self, p: Pos) -> bool {
        match self {
            Volume::Box(b) => b.contains(p),
            Volume::Cell(c) => cell_covers(c, p),
        }
    }

    /// Executable containment test.
    pub fn contains_point(&self, p: &Pos) -> (r: bool)
        requires
            self.wf(),
            p.wf(),
        ensures
            r == self.contains(*p),
    {
        match self {
            Volume::Box(b) => b.contains_point(p),
            Volume::Cell(c) => {
                let pc = cell_at(p, c.level);
                *c == pc
            },
        }
    }

    /// `self` covers no more space than `outer`.
    pub open spec fn inside(self, outer: Volume) -> bool {
        match (self, outer) {
            (Volume::Box(b), Volume::Box(ob)) => b.inside(ob),
            (Volume::Cell(c), Volume::Cell(oc)) => oc.ancestor_or_eq(c),
            _ => false,
        }
    }

    /// Executable nesting test.
    pub fn is_inside(&self, outer: &Volume) -> (r: bool)
        requires
            self.wf(),
            outer.wf(),
        ensures
            r == self.inside(*outer),
    {
        match (self, outer) {
            (Volume::Box(b), Volume::Box(ob)) => b.is_inside(ob),
            (Volume::Cell(c), Volume::Cell(oc)) => oc.is_ancestor_or_eq(c),
            _ => false,
        }
    }

    /// A point of a nested volume also lies in the enclosing volume.
    pub proof fn lemma_inside_transfers(self, outer: Volume, p: Pos)
        requires
            self.wf(),
            outer.wf(),
            p.wf(),
            self.inside(outer),
            self.contains(p),
        ensures
            outer.contains(p),
    {
        match (self, outer) {
            (Volume::Box(b), Volume::Box(ob)) => {},
            (Volume::Cell(c), Volume::Cell(oc)) => {
                lemma_cell_of_nested(p, oc.level, c.level);
            },
            _ => {},
        }
    }
}


/// All cells in the sequence are well formed.
pub open spec fn cells_wf(cs: Seq<CellId>) -> bool {
    forall|i: int| 0 <= i < cs.len() ==> (#[trigger] cs[i]).wf()
}

/// Executable check of `cells_wf`.
fn cells_all_wf(cs: &Vec<CellId>) -> (r: bool)
    ensures
        r == cells_wf(cs@),
{
    let mut i: usize = 0;
    while i < cs.len()
        invariant
            0 <= i <= cs@.len(),
            forall|j: int| 0 <= j < i ==> (#[trigger] cs@[j]).wf(),
        decreases cs@.len() - i,
    {
        if !cs[i].is_wf() {
            assert(!(cs@[i as int]).wf());
            return false;
        }
        i += 1;
    }
    true
}

/// Executable check of `planes_wf`.
fn planes_all_wf(ps: &Vec<Plane>) -> (r: bool)
    ensures
        r == planes_wf(ps@),
{
    let mut i: usize = 0;
    while i < ps.len()
        invariant
            0 <= i <= ps@.len(),
            forall|j: int| 0 <= j < i ==> (#[trigger] ps@[j]).wf(),
        decreases ps@.len() - i,
    {
        if !ps[i].is_wf() {
            assert(!(ps@[i as int]).wf());
            return false;
        }
        i += 1;
    }
    true
}

/// Whether some cell of the union is exactly the cell containing `p` at its
/// own level.
pub open spec fn cell_union_has(cs: Seq<CellId>, p: Pos) -> bool {
    exists|i: int| 0 <= i < cs.len() && #[trigger] cell_covers(cs[i], p)
}

/// Executable test of `cell_union_has`.
fn cell_union_contains(cs: &Vec<CellId>, p: &Pos) -> (r: bool)
    requires
        cells_wf(cs@),
        p.wf(),
    ensures
        r == cell_union_has(cs@, *p),
{
    let mut i: usize = 0;
    while i < cs.len()
        invariant
            0 <= i <= cs@.len(),
            cells_wf(cs@),
            p.wf(),
            forall|j: int| 0 <= j < i ==> !(#[trigger] cell_covers(cs@[j], *p)),
        decreases cs@.len() - i,
    {
        let pc = cell_at(p, cs[i].level);
        if cs[i] == pc {
            assert(cell_covers(cs@[i as int], *p));
            return true;
        }
        assert(!cell_covers(cs@[i as int], *p));
        i += 1;
    }
    false
}

impl LocationPredicate {
    /// A well-formed predicate: boxes are non-degenerate and in range, a
    /// frustum has exactly six bounded planes, cell ids fit their levels.
    pub open spec fn wf(self) -> bool {
        match self {
            LocationPredicate::AllPoints => true,
            LocationPredicate::AxisAlignedBox(b) => b.wf(),
            LocationPredicate::OrientedBox(ob) => ob.wf(),
            LocationPredicate::Frustum(ps) => ps@.len() == 6 && planes_wf(ps@),
            LocationPredicate::CellUnion(cs) => cells_wf(cs@),
        }
    }

    /// Executable check of `wf`; a malformed predicate is rejected before
    /// any traversal starts.
    pub fn is_wf(&self) -> (r: bool)
        ensures
            r == self.wf(),
    {
        match self {
            LocationPredicate::AllPoints => true,
            LocationPredicate::AxisAlignedBox(b) => b.is_wf(),
            LocationPredicate::OrientedBox(ob) => {
                let c = ob.center.is_wf();
                c
                && 0 <= ob.half.x && ob.half.x < COORD_LIMIT
                && 0 <= ob.half.y && ob.half.y < COORD_LIMIT
                && 0 <= ob.half.z && ob.half.z < COORD_LIMIT
                && -ROT_SCALE <= ob.row_x.x && ob.row_x.x <= ROT_SCALE
                && -ROT_SCALE <= ob.row_x.y && ob.row_x.y <= ROT_SCALE
                && -ROT_SCALE <= ob.row_x.z && ob.row_x.z <= ROT_SCALE
                && -ROT_SCALE <= ob.row_y.x && ob.row_y.x <= ROT_SCALE
                && -ROT_SCALE <= ob.row_y.y && ob.row_y.y <= ROT_SCALE
                && -ROT_SCALE <= ob.row_y.z && ob.row_y.z <= ROT_SCALE
                && -ROT_SCALE <= ob.row_z.x && ob.row_z.x <= ROT_SCALE
                && -ROT_SCALE <= ob.row_z.y && ob.row_z.y <= ROT_SCALE
                && -ROT_SCALE <= ob.row_z.z && ob.row_z.z <= ROT_SCALE
            },
            LocationPredicate::Frustum(ps) => ps.len() == 6 && planes_all_wf(ps),
            LocationPredicate::CellUnion(cs) => cells_all_wf(cs),
        }
    }

    /// The point-level inclusion test, as a mathematical predicate.
    pub open spec fn contains(self, p: Pos) -> bool {
        match self {
            LocationPredicate::AllPoints => true,
            LocationPredicate::AxisAlignedBox(b) => b.contains(p),
            LocationPredicate::OrientedBox(ob) => planes_contain(ob.planes(), p),
            LocationPredicate::Frustum(ps) => planes_contain(ps@, p),
            LocationPredicate::CellUnion(cs) => cell_union_has(cs@, p),
        }
    }

    /// Executable point-level inclusion test.
    pub fn contains_point(&self, p: &Pos) -> (r: bool)
        requires
            self.wf(),
            p.wf(),
        ensures
            r == self.contains(*p),
    {
        match self {
            LocationPredicate::AllPoints => true,
            LocationPredicate::AxisAlignedBox(b) => b.contains_point(p),
            LocationPredicate::OrientedBox(ob) => {
                let ps = ob.to_planes();
                planes_contain_point(&ps, p)
            },
            LocationPredicate::Frustum(ps) => planes_contain_point(ps, p),
            LocationPredicate::CellUnion(cs) => cell_union_contains(cs, p),
        }
    }
}

/// Classification of an axis-aligned box against a conjunction of half
/// spaces, decided at the box corners extremal for each plane.
pub open spec fn classify_planes_spec(ps: Seq<Plane>, b: Aabb) -> Class {
    if exists|i: int|
        0 <= i < ps.len() && (#[trigger] ps[i]).eval(ps[i].high_corner(b)) < 0 {
        Class::Disjoint
    } else if forall|i: int|
        0 <= i < ps.len() ==> (#[trigger] ps[i]).eval(ps[i].low_corner(b)) >= 0 {
        Class::Contains
    } else {
        Class::Intersects
    }
}

/// Executable mirror of `classify_planes_spec`.
fn classify_planes(ps: &Vec<Plane>, b: &Aabb) -> (r: Class)
    requires
        planes_wf(ps@),
        b.wf(),
    ensures
        r == classify_planes_spec(ps@, *b),
{
    let mut i: usize = 0;
    let mut all_in: bool = true;
    while i < ps.len()
        invariant
            0 <= i <= ps@.len(),
            planes_wf(ps@),
            b.wf(),
            forall|j: int|
                0 <= j < i ==> (#[trigger] ps@[j]).eval(ps@[j].high_corner(*b)) >= 0,
            all_in == forall|j: int|
                0 <= j < i ==> (#[trigger] ps@[j]).eval(ps@[j].low_corner(*b)) >= 0,
        decreases ps@.len() - i,
    {
        let pl = ps[i];
        let hc = Pos {
            x: if pl.a >= 0 { b.max.x } else { b.min.x },
            y: if pl.b >= 0 { b.max.y } else { b.min.y },
            z: if pl.c >= 0 { b.max.z } else { b.min.z },
        };
        let lc = Pos {
            x: if pl.a >= 0 { b.min.x } else { b.max.x },
            y: if pl.b >= 0 { b.min.y } else { b.max.y },
            z: if pl.c >= 0 { b.min.z } else { b.max.z },
        };
        assert(hc == pl.high_corner(*b));
        assert(lc == pl.low_corner(*b));
        if pl.eval_at(&hc) < 0 {
            assert((ps@[i as int]).eval(ps@[i as int].high_corner(*b)) < 0);
            return Class::Disjoint;
        }
        if pl.eval_at(&lc) < 0 {
            all_in = false;
            assert((ps@[i as int]).eval(ps@[i as int].low_corner(*b)) < 0);
        }
        i += 1;
    }
    if all_in {
        Class::Contains
    } else {
        Class::Intersects
    }
}

/// Soundness of plane-set classification: a `Disjoint` box holds no point of
/// the polytope, a `Contains` box holds only points of the polytope.
pub proof fn lemma_classify_planes_sound(ps: Seq<Plane>, b: Aabb, p: Pos)
    requires
        b.contains(p),
    ensures
        classify_planes_spec(ps, b) == Class::Disjoint ==> !planes_contain(ps, p),
        classify_planes_spec(ps, b) == Class::Contains ==> planes_contain(ps, p),
{
    if classify_planes_spec(ps, b) == Class::Disjoint {
        let i = choose|i: int|
            0 <= i < ps.len() && (#[trigger] ps[i]).eval(ps[i].high_corner(b)) < 0;
        ps[i].lemma_corner_bounds(b, p);
        assert(!ps[i].inside(p));
    }
    if classify_planes_spec(ps, b) == Class::Contains {
        assert forall|i: int| 0 <= i < ps.len() implies (#[trigger] ps[i]).inside(p) by {
            ps[i].lemma_corner_bounds(b, p);
        }
    }
}

/// Classification of a node cell against a union of cells, by cell ancestry.
pub open spec fn classify_cells_spec(cs: Seq<CellId>, nc: CellId) -> Class {
    if exists|i: int| 0 <= i < cs.len() && (#[trigger] cs[i]).ancestor_or_eq(nc) {
        Class::Contains
    } else if forall|i: int|
        0 <= i < cs.len()
            ==> !((#[trigger] cs[i]).ancestor_or_eq(nc) || nc.ancestor_or_eq(cs[i])) {
        Class::Disjoint
    } else {
        Class::Intersects
    }
}

/// Executable mirror of `classify_cells_spec`.
fn classify_cells(cs: &Vec<CellId>, nc: &CellId) -> (r: Class)
    requires
        cells_wf(cs@),
        nc.wf(),
    ensures
        r == classify_cells_spec(cs@, *nc),
{
    let mut i: usize = 0;
    let mut unrelated: bool = true;
    while i < cs.len()
        invariant
            0 <= i <= cs@.len(),
            cells_wf(cs@),
            nc.wf(),
            forall|j: int| 0 <= j < i ==> !(#[trigger] cs@[j]).ancestor_or_eq(*nc),
            unrelated == forall|j: int|
                0 <= j < i
                    ==> !((#[trigger] cs@[j]).ancestor_or_eq(*nc)
                        || nc.ancestor_or_eq(cs@[j])),
        decreases cs@.len() - i,
    {
        let c = cs[i];
        if c.is_ancestor_or_eq(nc) {
            assert((cs@[i as int]).ancestor_or_eq(*nc));
            return Class::Contains;
        }
        if nc.is_ancestor_or_eq(&c) {
            unrelated = false;
        }
        i += 1;
    }
    if unrelated {
        Class::Disjoint
    } else {
        Class::Intersects
    }
}

/// Soundness of cell-union classification.
pub proof fn lemma_classify_cells_sound(cs: Seq<CellId>, nc: CellId, p: Pos)
    requires
        cells_wf(cs),
        nc.wf(),
        p.wf(),
        cell_covers(nc, p),
    ensures
        classify_cells_spec(cs, nc) == Class::Disjoint ==> !cell_union_has(cs, p),
        classify_cells_spec(cs, nc) == Class::Contains ==> cell_union_has(cs, p),
{
    if classify_cells_spec(cs, nc) == Class::Contains {
        let i = choose|i: int| 0 <= i < cs.len() && (#[trigger] cs[i]).ancestor_or_eq(nc);
        let c = cs[i];
        lemma_cell_of_nested(p, c.level, nc.level);
        assert(cell_of(p, c.level).ancestor_or_eq(cell_of(p, nc.level)));
        assert(cell_of(p, c.level).pos == nc.pos as int / pow(4, (nc.level - c.level) as nat));
        assert(cell_of(p, c.level) == c);
        assert(cell_covers(cs[i], p));
    }
    if classify_cells_spec(cs, nc) == Class::Disjoint {
        if cell_union_has(cs, p) {
            let i = choose|i: int| 0 <= i < cs.len() && #[trigger] cell_covers(cs[i], p);
            let c = cs[i];
            if c.level <= nc.level {
                lemma_common_point_related(p, c, nc);
            } else {
                lemma_common_point_related(p, nc, c);
            }
            assert(false);
        }
    }
}

/// Classification of a location predicate against a node volume.  Where the
/// two kinds admit no exact finite test, the verdict is conservatively
/// `Intersects`.
pub open spec fn classify_spec(pred: LocationPredicate, vol: Volume) -> Class {
    match pred {
        LocationPredicate::AllPoints => Class::Contains,
        LocationPredicate::AxisAlignedBox(qb) => match vol {
            Volume::Box(nb) => if nb.inside(qb) {
                Class::Contains
            } else if !nb.overlaps(qb) {
                Class::Disjoint
            } else {
                Class::Intersects
            },
            Volume::Cell(_) => Class::Intersects,
        },
        LocationPredicate::OrientedBox(ob) => match vol {
            Volume::Box(nb) => classify_planes_spec(ob.planes(), nb),
            Volume::Cell(_) => Class::Intersects,
        },
        LocationPredicate::Frustum(ps) => match vol {
            Volume::Box(nb) => classify_planes_spec(ps@, nb),
            Volume::Cell(_) => Class::Intersects,
        },
        LocationPredicate::CellUnion(cs) => match vol {
            Volume::Cell(nc) => classify_cells_spec(cs@, nc),
            Volume::Box(_) => Class::Intersects,
        },
    }
}

/// Soundness of node classification: no point of a `Disjoint` volume
/// matches the predicate, every point of a `Contains` volume does.
pub proof fn lemma_classify_sound(pred: LocationPredicate, vol: Volume, p: Pos)
    requires
        pred.wf(),
        vol.wf(),
        p.wf(),
        vol.contains(p),
    ensures
        classify_spec(pred, vol) == Class::Disjoint ==> !pred.contains(p),
        classify_spec(pred, vol) == Class::Contains ==> pred.contains(p),
{
    match pred {
        LocationPredicate::AllPoints => {},
        LocationPredicate::AxisAlignedBox(qb) => {},
        LocationPredicate::OrientedBox(ob) => {
            if vol is Box {
                lemma_classify_planes_sound(ob.planes(), vol->Box_0, p);
            }
        },
        LocationPredicate::Frustum(ps) => {
            if vol is Box {
                lemma_classify_planes_sound(ps@, vol->Box_0, p);
            }
        },
        LocationPredicate::CellUnion(cs) => {
            if vol is Cell {
                lemma_classify_cells_sound(cs@, vol->Cell_0, p);
            }
        },
    }
}

impl LocationPredicate {
    /// Executable node classification.
    pub fn classify(&self, vol: &Volume) -> (r: Class)
        requires
            self.wf(),
            vol.wf(),
        ensures
            r == classify_spec(*self, *vol),
    {
        match self {
            LocationPredicate::AllPoints => Class::Contains,
            LocationPredicate::AxisAlignedBox(qb) => match vol {
                Volume::Box(nb) => if nb.is_inside(qb) {
                    Class::Contains
                } else if !nb.overlaps_box(qb) {
                    Class::Disjoint
                } else {
                    Class::Intersects
                },
                Volume::Cell(_) => Class::Intersects,
            },
            LocationPredicate::OrientedBox(ob) => match vol {
                Volume::Box(nb) => {
                    let ps = ob.to_planes();
                    classify_planes(&ps, nb)
                },
                Volume::Cell(_) => Class::Intersects,
            },
            LocationPredicate::Frustum(ps) => match vol {
                Volume::Box(nb) => classify_planes(ps, nb),
                Volume::Cell(_) => Class::Intersects,
            },
            LocationPredicate::CellUnion(cs) => match vol {
                Volume::Cell(nc) => classify_cells(cs, nc),
                Volume::Box(_) => Class::Intersects,
            },
        }
    }
}

} // verus!
