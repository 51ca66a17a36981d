//! Plane geometry on exact integer coordinates.
//!
//! A length is a whole number of units of ten nanometres: a millimetre is [`MM`] units and a
//! schematic grid step is [`GRID`] units, so every coordinate, text width and clearance that the
//! layout uses is exact. The y axis points down the sheet.
use vstd::prelude::*;

verus! {

/// Units per millimetre.
pub const MM: i64 = 100_000;

/// Units per grid step (1.27 mm).
pub const GRID: i64 = 127_000;

/// Largest magnitude of a coordinate; sums of a few thousand of them stay within 64 bits.
pub const COORD_MAX: i64 = 0x1000_0000_0000;

/// A point of the sheet.
#[derive(Clone, Copy, Debug, PartialEq, Eq, Structural)]
pub struct Pt {
    pub x: i64,
    pub y: i64,
}

/// An axis-parallel box from its top-left to its bottom-right corner.
#[derive(Clone, Copy, Debug, PartialEq, Eq, Structural)]
pub struct BBox {
    pub x0: i64,
    pub y0: i64,
    pub x1: i64,
    pub y1: i64,
}

/// A direction on the sheet: one unit step to the right, left, down or up.
pub type Dir = (i32, i32);

/// How a symbol is mirrored after its rotation.
#[derive(Clone, Copy, Debug, PartialEq, Eq, Structural)]
pub enum Mirror {
    Plain,
    /// Flipped about the horizontal axis.
    X,
    /// Flipped about the vertical axis.
    Y,
}

/// A coordinate within the supported range.
pub open spec fn in_range(v: int) -> bool {
    -COORD_MAX <= v <= COORD_MAX
}

pub open spec fn pt_ok(p: Pt) -> bool {
    in_range(p.x as int) && in_range(p.y as int)
}

pub open spec fn box_ok(b: BBox) -> bool {
    in_range(b.x0 as int) && in_range(b.y0 as int) && in_range(b.x1 as int) && in_range(b.y1 as int)
}

pub open spec fn is_dir(d: Dir) -> bool {
    d == (1i32, 0i32) || d == (-1i32, 0i32) || d == (0i32, 1i32) || d == (0i32, -1i32)
}

pub open spec fn lo(a: int, b: int) -> int {
    if a <= b { a } else { b }
}

pub open spec fn hi(a: int, b: int) -> int {
    if a >= b { a } else { b }
}

pub open spec fn mag(a: int) -> int {
    if a < 0 { -a } else { a }
}

/// The multiple of `unit` nearest to `v`; a tie goes to the even multiple.
pub open spec fn nearest_multiple(v: int, unit: int) -> int {
    round_div(v, unit) * unit
}

/// The integer nearest to `v / unit`; a tie goes to the even integer.
pub open spec fn round_div(v: int, unit: int) -> int {
    let q = v / unit;
    let r = v % unit;
    if 2 * r > unit || (2 * r == unit && q % 2 != 0) {
        q + 1
    } else {
        q
    }
}

/// The point `k` units along direction `d` from `p`.
pub open spec fn step(p: Pt, d: Dir, k: int) -> Pt {
    Pt { x: (p.x + d.0 * k) as i64, y: (p.y + d.1 * k) as i64 }
}

/// Rectilinear distance.
pub open spec fn manhattan(a: Pt, b: Pt) -> int {
    mag(a.x - b.x) + mag(a.y - b.y)
}

/// The boxes share area once each is widened by `m` (touching edges do not count at `m == 0`).
pub open spec fn overlap_spec(a: BBox, b: BBox, m: int) -> bool {
    !(a.x1 + m <= b.x0 || b.x1 + m <= a.x0 || a.y1 + m <= b.y0 || b.y1 + m <= a.y0)
}

/// The segment runs through the interior of the box shrunk by `eps`. A segment that is neither
/// vertical nor horizontal is counted as a hit whenever the shrunk box is not empty.
pub open spec fn hits(a: Pt, b: Pt, bx: BBox, eps: int) -> bool {
    let (x0, y0, x1, y1) = (bx.x0 + eps, bx.y0 + eps, bx.x1 - eps, bx.y1 - eps);
    if x0 >= x1 || y0 >= y1 {
        false
    } else if a.x == b.x {
        x0 < a.x < x1 && hi(a.y as int, b.y as int) > y0 && lo(a.y as int, b.y as int) < y1
    } else if a.y == b.y {
        y0 < a.y < y1 && hi(a.x as int, b.x as int) > x0 && lo(a.x as int, b.x as int) < x1
    } else {
        true
    }
}

/// Open intervals spanned by two pairs share a point.
pub open spec fn spans_meet(a: int, b: int, c: int, d: int) -> bool {
    hi(lo(a, b), lo(c, d)) < lo(hi(a, b), hi(c, d))
}

/// `v` lies strictly between `a` and `b`, whichever is the larger.
pub open spec fn strictly_between(v: int, a: int, b: int) -> bool {
    lo(a, b) < v < hi(a, b)
}

/// Two axis-parallel segments cross, or overlap along one line.
pub open spec fn cross(a: Pt, b: Pt, c: Pt, d: Pt) -> bool {
    let va = a.x == b.x;
    let vc = c.x == d.x;
    if va == vc {
        if va && a.x == c.x {
            spans_meet(a.y as int, b.y as int, c.y as int, d.y as int)
        } else if !va && a.y == c.y {
            spans_meet(a.x as int, b.x as int, c.x as int, d.x as int)
        } else {
            false
        }
    } else if va {
        strictly_between(c.y as int, a.y as int, b.y as int) && strictly_between(
            a.x as int,
            c.x as int,
            d.x as int,
        )
    } else {
        strictly_between(a.y as int, c.y as int, d.y as int) && strictly_between(
            c.x as int,
            a.x as int,
            b.x as int,
        )
    }
}

/// The collinear segment `a`-`b` contains the segment `p`-`q`.
pub open spec fn covers_spec(a: Pt, b: Pt, p: Pt, q: Pt) -> bool {
    if a.x == b.x && p.x == q.x && a.x == p.x {
        lo(a.y as int, b.y as int) <= lo(p.y as int, q.y as int) && hi(p.y as int, q.y as int) <= hi(
            a.y as int,
            b.y as int,
        )
    } else if a.y == b.y && p.y == q.y && a.y == p.y {
        lo(a.x as int, b.x as int) <= lo(p.x as int, q.x as int) && hi(p.x as int, q.x as int) <= hi(
            a.x as int,
            b.x as int,
        )
    } else {
        false
    }
}

/// `p` lies on the segment `a`-`b`, its ends included.
pub open spec fn on_seg(p: Pt, a: Pt, b: Pt) -> bool {
    &&& (b.x - a.x) * (p.y - a.y) - (b.y - a.y) * (p.x - a.x) == 0
    &&& lo(a.x as int, b.x as int) <= p.x <= hi(a.x as int, b.x as int)
    &&& lo(a.y as int, b.y as int) <= p.y <= hi(a.y as int, b.y as int)
}

pub fn min_i(a: i64, b: i64) -> (r: i64)
    ensures
        r == lo(a as int, b as int),
{
    if a <= b { a } else { b }
}

pub fn max_i(a: i64, b: i64) -> (r: i64)
    ensures
        r == hi(a as int, b as int),
{
    if a >= b { a } else { b }
}

pub fn abs_i(a: i64) -> (r: i64)
    requires
        a > i64::MIN,
    ensures
        r == mag(a as int),
{
    if a < 0 { -a } else { a }
}

/// The greatest integer not above `v / unit`.
pub fn floor_div(v: i64, unit: i64) -> (q: i64)
    requires
        in_range(v as int),
        0 < unit <= COORD_MAX,
    ensures
        q == v as int / unit as int,
        v >= 0 ==> 0 <= q <= v,
        v < 0 ==> v <= q < 0,
{
    if v >= 0 {
        let q: i64 = v / unit;
        proof {
            assert(0 <= v as int / unit as int <= v as int) by (nonlinear_arith)
                requires
                    v >= 0,
                    unit > 0,
            ;
        }
        q
    } else {
        let m: i64 = -1 - v;
        let d: i64 = m / unit;
        proof {
            assert(v as int / unit as int == -1 - d && 0 <= d <= m) by (nonlinear_arith)
                requires
                    d == m as int / unit as int,
                    m == -1 - v,
                    m >= 0,
                    unit > 0,
            ;
        }
        -1 - d
    }
}

/// The remainder of [`floor_div`], never negative.
pub fn floor_mod(v: i64, unit: i64) -> (r: i64)
    requires
        in_range(v as int),
        0 < unit <= COORD_MAX,
    ensures
        r == v as int % unit as int,
        0 <= r < unit,
{
    let q: i64 = floor_div(v, unit);
    proof {
        vstd::arithmetic::div_mod::lemma_fundamental_div_mod(v as int, unit as int);
        vstd::arithmetic::div_mod::lemma_mod_bound(v as int, unit as int);
        vstd::arithmetic::mul::lemma_mul_is_commutative(unit as int, q as int);
    }
    v - q * unit
}

/// The quotient rounded to the nearest integer, a tie to the even one.
pub fn round_quotient(v: i64, unit: i64) -> (r: i64)
    requires
        in_range(v as int),
        0 < unit <= COORD_MAX,
    ensures
        r == round_div(v as int, unit as int),
        -COORD_MAX <= r <= COORD_MAX + 1,
{
    let q: i64 = floor_div(v, unit);
    let m: i64 = floor_mod(v, unit);
    if 2 * m > unit || (2 * m == unit && floor_mod(q, 2) != 0) {
        q + 1
    } else {
        q
    }
}

pub fn manhattan_dist(a: Pt, b: Pt) -> (r: i64)
    requires
        pt_ok(a),
        pt_ok(b),
    ensures
        r == manhattan(a, b),
{
    abs_i(a.x - b.x) + abs_i(a.y - b.y)
}

/// Whether two boxes overlap with margin `m`.
pub fn overlap(a: &BBox, b: &BBox, m: i64) -> (r: bool)
    requires
        box_ok(*a),
        box_ok(*b),
        in_range(m as int),
    ensures
        r == overlap_spec(*a, *b, m as int),
{
    !(a.x1 + m <= b.x0 || b.x1 + m <= a.x0 || a.y1 + m <= b.y0 || b.y1 + m <= a.y0)
}

/// Whether a segment runs through a box shrunk by `eps`.
pub fn seg_hits_box(a: Pt, b: Pt, bx: &BBox, eps: i64) -> (r: bool)
    requires
        box_ok(*bx),
        in_range(eps as int),
    ensures
        r == hits(a, b, *bx, eps as int),
{
    let x0: i64 = bx.x0 + eps;
    let y0: i64 = bx.y0 + eps;
    let x1: i64 = bx.x1 - eps;
    let y1: i64 = bx.y1 - eps;
    if x0 >= x1 || y0 >= y1 {
        return false;
    }
    if a.x == b.x {
        return x0 < a.x && a.x < x1 && max_i(a.y, b.y) > y0 && min_i(a.y, b.y) < y1;
    }
    if a.y == b.y {
        return y0 < a.y && a.y < y1 && max_i(a.x, b.x) > x0 && min_i(a.x, b.x) < x1;
    }
    true
}

/// Whether two axis-parallel segments cross or overlap along one line.
pub fn segs_cross(a: Pt, b: Pt, c: Pt, d: Pt) -> (r: bool)
    ensures
        r == cross(a, b, c, d),
{
    let va = a.x == b.x;
    let vc = c.x == d.x;
    if va == vc {
        if va && a.x == c.x {
            return max_i(min_i(a.y, b.y), min_i(c.y, d.y)) < min_i(max_i(a.y, b.y), max_i(c.y, d.y));
        }
        if !va && a.y == c.y {
            return max_i(min_i(a.x, b.x), min_i(c.x, d.x)) < min_i(max_i(a.x, b.x), max_i(c.x, d.x));
        }
        return false;
    }
    let (u, v, p, q) = if va { (a, b, c, d) } else { (c, d, a, b) };
    min_i(u.y, v.y) < p.y && p.y < max_i(u.y, v.y) && min_i(p.x, q.x) < u.x && u.x < max_i(p.x, q.x)
}

/// Whether the collinear segment `a`-`b` contains the segment `p`-`q`.
pub fn covers(a: Pt, b: Pt, p: Pt, q: Pt) -> (r: bool)
    ensures
        r == covers_spec(a, b, p, q),
{
    if a.x == b.x && p.x == q.x && a.x == p.x {
        return min_i(a.y, b.y) <= min_i(p.y, q.y) && max_i(p.y, q.y) <= max_i(a.y, b.y);
    }
    if a.y == b.y && p.y == q.y && a.y == p.y {
        return min_i(a.x, b.x) <= min_i(p.x, q.x) && max_i(p.x, q.x) <= max_i(a.x, b.x);
    }
    false
}

/// Whether `p` lies on the segment `a`-`b`.
pub fn on_segment(p: Pt, a: Pt, b: Pt) -> (r: bool)
    requires
        pt_ok(p),
        pt_ok(a),
        pt_ok(b),
    ensures
        r == on_seg(p, a, b),
{
    let u: i128 = (b.x - a.x) as i128;
    let v: i128 = (p.y - a.y) as i128;
    let w: i128 = (b.y - a.y) as i128;
    let z: i128 = (p.x - a.x) as i128;
    proof {
        let m: int = 2 * COORD_MAX;
        assert(-(m * m) <= u * v <= m * m) by (nonlinear_arith)
            requires
                -m <= u <= m,
                -m <= v <= m,
                m >= 0,
        ;
        assert(-(m * m) <= w * z <= m * m) by (nonlinear_arith)
            requires
                -m <= w <= m,
                -m <= z <= m,
                m >= 0,
        ;
        assert(m * m == 0x400_0000_0000_0000_0000_0000int);
    }
    u * v - w * z == 0 && min_i(a.x, b.x) <= p.x && p.x <= max_i(a.x, b.x) && min_i(a.y, b.y) <= p.y
        && p.y <= max_i(a.y, b.y)
}

/// Overlap does not depend on the order of the two boxes.
pub proof fn overlap_symmetric(a: BBox, b: BBox, m: int)
    ensures
        overlap_spec(a, b, m) == overlap_spec(b, a, m),
{
}

/// A segment that is vertical or horizontal.
pub open spec fn axis_parallel(a: Pt, b: Pt) -> bool {
    a.x == b.x || a.y == b.y
}

/// Crossing does not depend on the order of the two segments, nor on the order of their ends.
pub proof fn cross_symmetric(a: Pt, b: Pt, c: Pt, d: Pt)
    requires
        axis_parallel(a, b),
        axis_parallel(c, d),
    ensures
        cross(a, b, c, d) == cross(c, d, a, b),
        cross(a, b, c, d) == cross(b, a, c, d),
        cross(a, b, c, d) == cross(a, b, d, c),
{
}

/// A segment that covers another covers whatever that one covers.
pub proof fn covers_transitive(a: Pt, b: Pt, c: Pt, d: Pt, e: Pt, f: Pt)
    requires
        covers_spec(a, b, c, d),
        covers_spec(c, d, e, f),
        c != d,
    ensures
        covers_spec(a, b, e, f),
{
}

} // verus!
