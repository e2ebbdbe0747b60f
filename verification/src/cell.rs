//! Hierarchical cells over six quad-subdivided faces.
//!
//! The coordinate cube's surface is split into six faces, one per axis
//! direction.  A position is assigned to the face of its dominant axis, and
//! the two remaining coordinates are folded into a quadtree path by repeated
//! midpoint subdivision.  A cell is a face together with a subdivision level
//! and a path; a deeper cell is a descendant of a shallower one exactly when
//! the shallow path is a prefix of the deep one, which here means a division
//! by a power of four.

use vstd::prelude::*;

verus! {

use vstd::arithmetic::power::pow;
use vstd::arithmetic::power::lemma_pow_adds;
use vstd::arithmetic::power::lemma_pow_positive;
use vstd::arithmetic::div_mod::lemma_fundamental_div_mod_converse;
use crate::geom::Pos;
use crate::geom::COORD_LIMIT;

/// Deepest allowed subdivision level.
pub const MAX_CELL_LEVEL: u8 = 20;

/// Side length of a face in folded coordinates: 2^31.
pub const FACE_SIZE: u64 = 2147483648;

/// A cell of the face hierarchy: a face, a level and a quadtree path.
#[derive(Clone, Copy, PartialEq, Eq, Structural, Debug)]
pub struct CellId {
    pub face: u8,
    pub level: u8,
    pub pos: u64,
}

/// The quadtree path of depth `l` for folded face coordinates `(u, v)`
/// inside a square of side `size`, most significant quadrant first.
pub open spec fn quad_pos(u: int, v: int, size: int, l: nat) -> int
    decreases l,
{
    if l == 0 {
        0
    } else {
        let h = size / 2;
        let du: int = if u >= h { 1 } else { 0 };
        let dv: int = if v >= h { 1 } else { 0 };
        let uu: int = if u >= h { u - h } else { u };
        let vv: int = if v >= h { v - h } else { v };
        (2 * du + dv) * pow(4, (l - 1) as nat) + quad_pos(uu, vv, h, (l - 1) as nat)
    }
}

/// A quadtree path of depth `l` is below `4^l`.
pub proof fn lemma_quad_pos_range(u: int, v: int, size: int, l: nat)
    ensures
        0 <= quad_pos(u, v, size, l) < pow(4, l),
    decreases l,
{
    if l == 0 {
        vstd::arithmetic::power::lemma_pow0(4);
    } else {
        let h = size / 2;
        let du: int = if u >= h { 1 } else { 0 };
        let dv: int = if v >= h { 1 } else { 0 };
        let uu: int = if u >= h { u - h } else { u };
        let vv: int = if v >= h { v - h } else { v };
        let digit = 2 * du + dv;
        lemma_quad_pos_range(uu, vv, h, (l - 1) as nat);
        lemma_pow_positive(4, (l - 1) as nat);
        let p1 = pow(4, (l - 1) as nat);
        assert(pow(4, l) == 4 * p1) by {
            lemma_pow_adds(4, 1nat, (l - 1) as nat);
            assert(pow(4, 1nat) == 4) by {
                reveal_with_fuel(pow, 2);
            }
        }
        assert(digit * p1 <= 3 * p1) by (nonlinear_arith)
            requires
                0 <= digit <= 3,
                p1 > 0,
        ;
        assert(digit * p1 >= 0) by (nonlinear_arith)
            requires
                0 <= digit,
                p1 > 0,
        ;
    }
}

/// Truncating a quadtree path to a shallower depth divides it by a power of
/// four: the shallow path is the deep path's prefix.
pub proof fn lemma_quad_pos_prefix(u: int, v: int, size: int, l1: nat, l2: nat)
    requires
        l1 <= l2,
    ensures
        quad_pos(u, v, size, l1) == quad_pos(u, v, size, l2) / pow(4, (l2 - l1) as nat),
    decreases l1,
{
    let k = (l2 - l1) as nat;
    let pk = pow(4, k);
    lemma_pow_positive(4, k);
    if l1 == 0 {
        lemma_quad_pos_range(u, v, size, l2);
        // quad_pos(.., l2) < 4^l2 and l2 == k, so the quotient is 0.
        lemma_fundamental_div_mod_converse(quad_pos(u, v, size, l2), pk, 0, quad_pos(u, v, size, l2));
    } else {
        let h = size / 2;
        let du: int = if u >= h { 1 } else { 0 };
        let dv: int = if v >= h { 1 } else { 0 };
        let uu: int = if u >= h { u - h } else { u };
        let vv: int = if v >= h { v - h } else { v };
        let digit = 2 * du + dv;
        let q1 = quad_pos(uu, vv, h, (l1 - 1) as nat);
        let q2 = quad_pos(uu, vv, h, (l2 - 1) as nat);
        lemma_quad_pos_prefix(uu, vv, h, (l1 - 1) as nat, (l2 - 1) as nat);
        lemma_quad_pos_range(uu, vv, h, (l2 - 1) as nat);
        // q2 == q1 * 4^k + r with 0 <= r < 4^k.
        let r = q2 % pk;
        assert(q1 == q2 / pk);
        vstd::arithmetic::div_mod::lemma_fundamental_div_mod(q2, pk);
        vstd::arithmetic::div_mod::lemma_mod_bound(q2, pk);
        assert(q2 == q1 * pk + r);
        assert(0 <= r < pk);
        let p11 = pow(4, (l1 - 1) as nat);
        let p21 = pow(4, (l2 - 1) as nat);
        lemma_pow_positive(4, (l1 - 1) as nat);
        lemma_pow_positive(4, (l2 - 1) as nat);
        assert(p21 == p11 * pk) by {
            lemma_pow_adds(4, (l1 - 1) as nat, k);
        }
        // quad_pos at l2 is (digit * p11 + q1) * pk + r.
        assert(digit * p21 == (digit * p11) * pk) by (nonlinear_arith)
            requires
                p21 == p11 * pk,
        ;
        assert((digit * p11) * pk + (q1 * pk + r) == (digit * p11 + q1) * pk + r) by (nonlinear_arith);
        lemma_quad_pos_range(u, v, size, l1);
        lemma_fundamental_div_mod_converse(
            quad_pos(u, v, size, l2),
            pk,
            digit * p11 + q1,
            r,
        );
    }
}

impl CellId {
    /// A well-formed cell has a real face, a bounded level and a path that
    /// fits the level.
    pub open spec fn wf(self) -> bool {
        self.face < 6 && self.level <= MAX_CELL_LEVEL && self.pos < pow(4, self.level as nat)
    }

    /// `self` is `other` or one of its ancestors: same face, not deeper, and
    /// `other`'s path starts with `self`'s.
    pub open spec fn ancestor_or_eq(self, other: CellId) -> bool {
        self.face == other.face
        && self.level <= other.level
        && self.pos == other.pos as int / pow(4, (other.level - self.level) as nat)
    }

    /// Executable check of `wf`.
    pub fn is_wf(&self) -> (r: bool)
        ensures
            r == self.wf(),
    {
        self.face < 6 && self.level <= MAX_CELL_LEVEL && self.pos < pow4(self.level)
    }

    /// Executable ancestor-or-equal test.
    pub fn is_ancestor_or_eq(&self, other: &CellId) -> (r: bool)
        requires
            self.wf(),
            other.wf(),
        ensures
            r == self.ancestor_or_eq(*other),
    {
        if self.face == other.face && self.level <= other.level {
            let p: u64 = pow4(other.level - self.level);
            proof {
                lemma_pow_positive(4, (other.level - self.level) as nat);
            }
            self.pos == other.pos / p
        } else {
            false
        }
    }
}

/// `4^l` for levels up to the maximum; fits easily in a `u64`.
pub fn pow4(l: u8) -> (r: u64)
    requires
        l <= MAX_CELL_LEVEL,
    ensures
        r == pow(4, l as nat),
{
    let mut i: u8 = 0;
    let mut acc: u64 = 1;
    proof {
        vstd::arithmetic::power::lemma_pow0(4);
    }
    while i < l
        invariant
            0 <= i <= l,
            l <= MAX_CELL_LEVEL,
            acc == pow(4, i as nat),
            acc <= 1099511627776,
        decreases l - i,
    {
        proof {
            lemma_pow_adds(4, i as nat, 1nat);
            assert(pow(4, 1nat) == 4) by {
                reveal_with_fuel(pow, 2);
            }
            lemma_pow_positive(4, i as nat);
            vstd::arithmetic::power::lemma_pow_increases(4, (i + 1) as nat, MAX_CELL_LEVEL as nat);
            assert(pow(4, MAX_CELL_LEVEL as nat) == 1099511627776) by {
                reveal_with_fuel(pow, 21);
            }
        }
        acc = acc * 4;
        i += 1;
    }
    acc
}

/// The face a position belongs to: twice the dominant axis, plus one for the
/// negative direction.
pub open spec fn face_of(p: Pos) -> int {
    let ax = if p.x >= 0 { p.x as int } else { -(p.x as int) };
    let ay = if p.y >= 0 { p.y as int } else { -(p.y as int) };
    let az = if p.z >= 0 { p.z as int } else { -(p.z as int) };
    if ax >= ay && ax >= az {
        if p.x >= 0 { 0int } else { 1int }
    } else if ay >= az {
        if p.y >= 0 { 2int } else { 3int }
    } else {
        if p.z >= 0 { 4int } else { 5int }
    }
}

/// The two non-dominant coordinates of a position, folded into `[0, 2^31)`.
pub open spec fn face_uv(p: Pos) -> (int, int) {
    let f = face_of(p);
    if f == 0 || f == 1 {
        ((p.y + COORD_LIMIT) as int, (p.z + COORD_LIMIT) as int)
    } else if f == 2 || f == 3 {
        ((p.x + COORD_LIMIT) as int, (p.z + COORD_LIMIT) as int)
    } else {
        ((p.x + COORD_LIMIT) as int, (p.y + COORD_LIMIT) as int)
    }
}

/// The cell of depth `level` containing a position.
pub open spec fn cell_of(p: Pos, level: u8) -> CellId {
    CellId {
        face: face_of(p) as u8,
        level,
        pos: quad_pos(face_uv(p).0, face_uv(p).1, FACE_SIZE as int, level as nat) as u64,
    }
}

/// The containing cell is well formed at any allowed level.
pub proof fn lemma_cell_of_wf(p: Pos, level: u8)
    requires
        p.wf(),
        level <= MAX_CELL_LEVEL,
    ensures
        cell_of(p, level).wf(),
{
    lemma_quad_pos_range(face_uv(p).0, face_uv(p).1, FACE_SIZE as int, level as nat);
}

/// Containing cells of one position are nested: the shallower one is an
/// ancestor of (or equal to) the deeper one.
pub proof fn lemma_cell_of_nested(p: Pos, l1: u8, l2: u8)
    requires
        p.wf(),
        l1 <= l2 <= MAX_CELL_LEVEL,
    ensures
        cell_of(p, l1).ancestor_or_eq(cell_of(p, l2)),
{
    let (u, v) = face_uv(p);
    lemma_quad_pos_prefix(u, v, FACE_SIZE as int, l1 as nat, l2 as nat);
    lemma_quad_pos_range(u, v, FACE_SIZE as int, l1 as nat);
    lemma_quad_pos_range(u, v, FACE_SIZE as int, l2 as nat);
    lemma_pow_le_max(l1 as nat);
    lemma_pow_le_max(l2 as nat);
    assert(cell_of(p, l1).pos as int == quad_pos(u, v, FACE_SIZE as int, l1 as nat));
    assert(cell_of(p, l2).pos as int == quad_pos(u, v, FACE_SIZE as int, l2 as nat));
}

/// `4^l` stays below `2^64` for levels up to the maximum.
proof fn lemma_pow_le_max(l: nat)
    requires
        l <= MAX_CELL_LEVEL as nat,
    ensures
        pow(4, l) <= 1099511627776,
{
    vstd::arithmetic::power::lemma_pow_increases(4, l, MAX_CELL_LEVEL as nat);
    assert(pow(4, MAX_CELL_LEVEL as nat) == 1099511627776) by {
        reveal_with_fuel(pow, 21);
    }
}

/// Two cells that both contain one position are ancestor-related.
pub proof fn lemma_common_point_related(p: Pos, a: CellId, b: CellId)
    requires
        p.wf(),
        a.wf(),
        b.wf(),
        a == cell_of(p, a.level),
        b == cell_of(p, b.level),
        a.level <= b.level,
    ensures
        a.ancestor_or_eq(b),
{
    lemma_cell_of_nested(p, a.level, b.level);
}

/// Executable computation of the containing cell at a level.
pub fn cell_at(p: &Pos, level: u8) -> (r: CellId)
    requires
        p.wf(),
        level <= MAX_CELL_LEVEL,
    ensures
        r == cell_of(*p, level),
        r.wf(),
{
    let ax: i64 = if p.x >= 0 { p.x } else { -p.x };
    let ay: i64 = if p.y >= 0 { p.y } else { -p.y };
    let az: i64 = if p.z >= 0 { p.z } else { -p.z };
    let face: u8;
    let u0: i64;
    let v0: i64;
    if ax >= ay && ax >= az {
        face = if p.x >= 0 { 0 } else { 1 };
        u0 = p.y + COORD_LIMIT;
        v0 = p.z + COORD_LIMIT;
    } else if ay >= az {
        face = if p.y >= 0 { 2 } else { 3 };
        u0 = p.x + COORD_LIMIT;
        v0 = p.z + COORD_LIMIT;
    } else {
        face = if p.z >= 0 { 4 } else { 5 };
        u0 = p.x + COORD_LIMIT;
        v0 = p.y + COORD_LIMIT;
    }
    let pos: u64 = quad_pos_exec(u0 as u64, v0 as u64, FACE_SIZE, level);
    proof {
        lemma_cell_of_wf(*p, level);
    }
    CellId { face, level, pos }
}

/// Executable mirror of `quad_pos`.
fn quad_pos_exec(u: u64, v: u64, size: u64, l: u8) -> (r: u64)
    requires
        l <= MAX_CELL_LEVEL,
        size <= FACE_SIZE,
        u <= FACE_SIZE * 2,
        v <= FACE_SIZE * 2,
    ensures
        r == quad_pos(u as int, v as int, size as int, l as nat),
    decreases l,
{
    if l == 0 {
        0
    } else {
        let h: u64 = size / 2;
        let du: u64 = if u >= h { 1 } else { 0 };
        let dv: u64 = if v >= h { 1 } else { 0 };
        let uu: u64 = if u >= h { u - h } else { u };
        let vv: u64 = if v >= h { v - h } else { v };
        let rest: u64 = quad_pos_exec(uu, vv, h, l - 1);
        let scale: u64 = pow4(l - 1);
        proof {
            lemma_quad_pos_range(uu as int, vv as int, h as int, (l - 1) as nat);
            lemma_pow_positive(4, (l - 1) as nat);
            assert(pow(4, (l - 1) as nat) <= 1099511627776) by {
                vstd::arithmetic::power::lemma_pow_increases(4, (l - 1) as nat, MAX_CELL_LEVEL as nat);
                assert(pow(4, MAX_CELL_LEVEL as nat) == 1099511627776) by {
                    reveal_with_fuel(pow, 21);
                }
            }
            let digit = (2 * du + dv) as int;
            assert(digit * (scale as int) <= 3 * (scale as int)) by (nonlinear_arith)
                requires
                    0 <= digit <= 3,
                    scale as int > 0,
            ;
            assert(digit * (scale as int) >= 0) by (nonlinear_arith)
                requires
                    0 <= digit,
                    scale as int > 0,
            ;
        }
        (2 * du + dv) * scale + rest
    }
}

} // verus!
