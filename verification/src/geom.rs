//! Exact integer plane geometry.
//!
//! All coordinates live on an integer grid inside a bounded workspace:
//! every stored coordinate has absolute value at most [`COORD_LIMIT`].
//! Directions of lines are integer vectors (differences of two workspace
//! points), so their coordinates are bounded by twice that limit.  The
//! bounds keep every intermediate product of the resolution formulas well
//! inside `i128`, which lets each operation here be exact and verified
//! free of overflow.
//!
//! Where a result of a construction is a rational number (the coordinate
//! of a line-line intersection, the parameter of a projection), it is
//! truncated toward zero to the grid; [`trunc_div`] is the single place
//! where that rounding rule is written down.

use vstd::prelude::*;

verus! {

/// Largest absolute coordinate value the workspace admits.
pub const COORD_LIMIT: i64 = 100_000_000;

/// A position or direction on the integer grid.
#[derive(Clone, Copy, PartialEq, Eq, Structural, Debug, Hash)]
pub struct Vector2 {
    pub x: i64,
    pub y: i64,
}

/// A single coordinate lies inside the workspace.
pub open spec fn coord_ok(c: int) -> bool {
    -(COORD_LIMIT as int) <= c <= COORD_LIMIT as int
}

/// A point lies inside the workspace.
pub open spec fn in_workspace(v: Vector2) -> bool {
    coord_ok(v.x as int) && coord_ok(v.y as int)
}

/// A direction coordinate: the difference of two workspace coordinates.
pub open spec fn dir_coord_ok(c: int) -> bool {
    -2 * (COORD_LIMIT as int) <= c <= 2 * (COORD_LIMIT as int)
}

/// A usable line direction: bounded and not the zero vector.
pub open spec fn dir_ok(d: Vector2) -> bool {
    dir_coord_ok(d.x as int) && dir_coord_ok(d.y as int) && !(d.x == 0 && d.y == 0)
}

/// Absolute value over the mathematical integers.
pub open spec fn abs_int(n: int) -> int {
    if n < 0 {
        -n
    } else {
        n
    }
}

/// Division truncated toward zero, the engine's single rounding rule.
pub open spec fn trunc_div(n: int, d: int) -> int
    recommends
        d != 0,
{
    let q = abs_int(n) / abs_int(d);
    if (n < 0) != (d < 0) {
        -q
    } else {
        q
    }
}

/// Clamp an integer into the workspace coordinate range.
pub open spec fn clamp_coord(n: int) -> int {
    if n < -(COORD_LIMIT as int) {
        -(COORD_LIMIT as int)
    } else if n > COORD_LIMIT as int {
        COORD_LIMIT as int
    } else {
        n
    }
}

/// Two-dimensional cross product of `(ax, ay)` and `(bx, by)`.
pub open spec fn cross2(ax: int, ay: int, bx: int, by: int) -> int {
    ax * by - ay * bx
}

/// Squared Euclidean distance between two points.
pub open spec fn dist2(a: Vector2, b: Vector2) -> int {
    (a.x - b.x) * (a.x - b.x) + (a.y - b.y) * (a.y - b.y)
}

/// Squared length of a vector.
pub open spec fn len2(d: Vector2) -> int {
    d.x * d.x + d.y * d.y
}

/// Two-dimensional dot product of `(ax, ay)` and `(bx, by)`.
pub open spec fn dot2(ax: int, ay: int, bx: int, by: int) -> int {
    ax * bx + ay * by
}

/// Where a point constrained to a line at parameter `t` comes to rest:
/// the line's origin advanced `t` steps along its direction, or absent
/// when that leaves the workspace.
pub open spec fn on_line_spec(o: Vector2, d: Vector2, t: int) -> Option<Vector2> {
    let x = o.x + d.x * t;
    let y = o.y + d.y * t;
    if coord_ok(x) && coord_ok(y) {
        Some(Vector2 { x: x as i64, y: y as i64 })
    } else {
        None
    }
}

/// The denominator of the line-line intersection formula; zero exactly
/// when the directions are parallel (or one is degenerate).
pub open spec fn intersect_den(d1: Vector2, d2: Vector2) -> int {
    cross2(d1.x as int, d1.y as int, d2.x as int, d2.y as int)
}

/// The intersection point of two lines, truncated to the grid; absent
/// when the lines are parallel or the point leaves the workspace.
pub open spec fn line_intersection(o1: Vector2, d1: Vector2, o2: Vector2, d2: Vector2) -> Option<
    Vector2,
> {
    let den = intersect_den(d1, d2);
    if den == 0 {
        None
    } else {
        let sn = cross2(o2.x - o1.x, o2.y - o1.y, d2.x as int, d2.y as int);
        let x = trunc_div(o1.x * den + sn * d1.x, den);
        let y = trunc_div(o1.y * den + sn * d1.y, den);
        if coord_ok(x) && coord_ok(y) {
            Some(Vector2 { x: x as i64, y: y as i64 })
        } else {
            None
        }
    }
}

/// The squared numerator of the cursor-to-line distance: the cross
/// product of the direction with the offset from the origin.
pub open spec fn line_side2(p: Vector2, o: Vector2, d: Vector2) -> int {
    let c = cross2(d.x as int, d.y as int, p.x - o.x, p.y - o.y);
    c * c
}

/// Whether `p` lies within distance `thr` of the line through `o` with
/// direction `d` (comparison of exact squared distances).
pub open spec fn within_line_dist(p: Vector2, o: Vector2, d: Vector2, thr: int) -> bool {
    line_side2(p, o, d) <= thr * thr * len2(d)
}

/// The grid parameter on the line through `o` with direction `d` whose
/// point lies closest to `p`, clamped into the workspace.
pub open spec fn line_parameter(p: Vector2, o: Vector2, d: Vector2) -> int
    recommends
        len2(d) != 0,
{
    clamp_coord(trunc_div(dot2(p.x - o.x, p.y - o.y, d.x as int, d.y as int), len2(d)))
}

/// Truncated division on machine integers, bounded well away from the
/// extremes so negation and the cast back stay exact.
pub(crate) fn trunc_div_i128(n: i128, d: i128) -> (q: i128)
    requires
        d != 0,
        -0x4000_0000_0000_0000_0000_0000_0000_0000 < n < 0x4000_0000_0000_0000_0000_0000_0000_0000,
        -0x4000_0000_0000_0000_0000_0000_0000_0000 < d < 0x4000_0000_0000_0000_0000_0000_0000_0000,
    ensures
        q == trunc_div(n as int, d as int),
{
    let nn: u128 = if n < 0 {
        (-n) as u128
    } else {
        n as u128
    };
    let dd: u128 = if d < 0 {
        (-d) as u128
    } else {
        d as u128
    };
    assert(nn as int == abs_int(n as int));
    assert(dd as int == abs_int(d as int));
    let qq: u128 = nn / dd;
    assert(qq <= nn) by {
        assert(qq as int == nn as int / dd as int);
        assert(nn as int / dd as int <= nn as int) by (nonlinear_arith)
            requires
                dd as int >= 1,
                nn as int >= 0,
        ;
    }
    if (n < 0) != (d < 0) {
        -(qq as i128)
    } else {
        qq as i128
    }
}

/// Bounding a product by the product of the factors' bounds.
pub proof fn lemma_mul_bound(a: int, b: int, ab: int, bb: int)
    requires
        -ab <= a <= ab,
        -bb <= b <= bb,
        0 <= ab,
        0 <= bb,
    ensures
        -(ab * bb) <= a * b <= ab * bb,
{
    assert(-(ab * bb) <= a * b <= ab * bb) by (nonlinear_arith)
        requires
            -ab <= a <= ab,
            -bb <= b <= bb,
            0 <= ab,
            0 <= bb,
    ;
}

/// A nonzero vector has positive squared length.
pub proof fn lemma_len2_pos(d: Vector2)
    requires
        !(d.x == 0 && d.y == 0),
    ensures
        len2(d) >= 1,
{
    assert((d.x as int) * (d.x as int) >= 0 && (d.y as int) * (d.y as int) >= 0 && ((
    d.x as int) != 0 ==> (d.x as int) * (d.x as int) >= 1) && ((d.y as int) != 0 ==> (
    d.y as int) * (d.y as int) >= 1)) by (nonlinear_arith);
}

/// Resolve a point constrained to a line at parameter `t`.
pub fn on_line_point(o: Vector2, d: Vector2, t: i64) -> (r: Option<Vector2>)
    requires
        in_workspace(o),
        dir_coord_ok(d.x as int),
        dir_coord_ok(d.y as int),
        coord_ok(t as int),
    ensures
        r == on_line_spec(o, d, t as int),
{
    proof {
        lemma_mul_bound(d.x as int, t as int, 200_000_000, 100_000_000);
        lemma_mul_bound(d.y as int, t as int, 200_000_000, 100_000_000);
    }
    let xi: i128 = o.x as i128 + (d.x as i128) * (t as i128);
    let yi: i128 = o.y as i128 + (d.y as i128) * (t as i128);
    let lim: i128 = COORD_LIMIT as i128;
    if -lim <= xi && xi <= lim && -lim <= yi && yi <= lim {
        Some(Vector2 { x: xi as i64, y: yi as i64 })
    } else {
        None
    }
}

/// Resolve the intersection of the line through `o1` along `d1` with the
/// line through `o2` along `d2`.
pub fn intersect_lines(o1: Vector2, d1: Vector2, o2: Vector2, d2: Vector2) -> (r: Option<Vector2>)
    requires
        in_workspace(o1),
        in_workspace(o2),
        dir_coord_ok(d1.x as int),
        dir_coord_ok(d1.y as int),
        dir_coord_ok(d2.x as int),
        dir_coord_ok(d2.y as int),
    ensures
        r == line_intersection(o1, d1, o2, d2),
{
    proof {
        lemma_mul_bound(d1.x as int, d2.y as int, 200_000_000, 200_000_000);
        lemma_mul_bound(d1.y as int, d2.x as int, 200_000_000, 200_000_000);
    }
    let den: i128 = (d1.x as i128) * (d2.y as i128) - (d1.y as i128) * (d2.x as i128);
    if den == 0 {
        return None;
    }
    proof {
        lemma_mul_bound(o2.x as int - o1.x as int, d2.y as int, 200_000_000, 200_000_000);
        lemma_mul_bound(o2.y as int - o1.y as int, d2.x as int, 200_000_000, 200_000_000);
    }
    let sn: i128 = (o2.x as i128 - o1.x as i128) * (d2.y as i128) - (o2.y as i128 - o1.y as i128)
        * (d2.x as i128);
    proof {
        lemma_mul_bound(o1.x as int, den as int, 100_000_000, 80_000_000_000_000_000);
        lemma_mul_bound(o1.y as int, den as int, 100_000_000, 80_000_000_000_000_000);
        lemma_mul_bound(sn as int, d1.x as int, 80_000_000_000_000_000, 200_000_000);
        lemma_mul_bound(sn as int, d1.y as int, 80_000_000_000_000_000, 200_000_000);
    }
    let xn: i128 = (o1.x as i128) * den + sn * (d1.x as i128);
    let yn: i128 = (o1.y as i128) * den + sn * (d1.y as i128);
    let x = trunc_div_i128(xn, den);
    let y = trunc_div_i128(yn, den);
    let lim: i128 = COORD_LIMIT as i128;
    if -lim <= x && x <= lim && -lim <= y && y <= lim {
        Some(Vector2 { x: x as i64, y: y as i64 })
    } else {
        None
    }
}

/// Exact squared Euclidean distance between two points of the extended
/// (screen-space) range.
pub fn dist_sq(a: Vector2, b: Vector2) -> (r: i128)
    requires
        dir_coord_ok(a.x as int),
        dir_coord_ok(a.y as int),
        dir_coord_ok(b.x as int),
        dir_coord_ok(b.y as int),
    ensures
        r == dist2(a, b),
{
    let dx: i128 = a.x as i128 - b.x as i128;
    let dy: i128 = a.y as i128 - b.y as i128;
    proof {
        lemma_mul_bound(dx as int, dx as int, 400_000_000, 400_000_000);
        lemma_mul_bound(dy as int, dy as int, 400_000_000, 400_000_000);
    }
    dx * dx + dy * dy
}

/// Whether `p` lies within distance `thr` of the line through `o` along
/// `d`, compared exactly on squared distances.
pub fn line_within(p: Vector2, o: Vector2, d: Vector2, thr: i64) -> (r: bool)
    requires
        dir_coord_ok(p.x as int),
        dir_coord_ok(p.y as int),
        dir_coord_ok(o.x as int),
        dir_coord_ok(o.y as int),
        dir_coord_ok(d.x as int),
        dir_coord_ok(d.y as int),
        0 <= thr as int <= COORD_LIMIT as int,
    ensures
        r == within_line_dist(p, o, d, thr as int),
{
    proof {
        lemma_mul_bound(d.x as int, p.y as int - o.y as int, 200_000_000, 400_000_000);
        lemma_mul_bound(d.y as int, p.x as int - o.x as int, 200_000_000, 400_000_000);
    }
    let c: i128 = (d.x as i128) * (p.y as i128 - o.y as i128) - (d.y as i128) * (p.x as i128
        - o.x as i128);
    proof {
        lemma_mul_bound(c as int, c as int, 160_000_000_000_000_000, 160_000_000_000_000_000);
        lemma_mul_bound(d.x as int, d.x as int, 200_000_000, 200_000_000);
        lemma_mul_bound(d.y as int, d.y as int, 200_000_000, 200_000_000);
        lemma_mul_bound(thr as int, thr as int, 100_000_000, 100_000_000);
        lemma_mul_bound(
            (thr as int) * (thr as int),
            (d.x as int) * (d.x as int) + (d.y as int) * (d.y as int),
            10_000_000_000_000_000,
            80_000_000_000_000_000,
        );
    }
    let l2: i128 = (d.x as i128) * (d.x as i128) + (d.y as i128) * (d.y as i128);
    let t2: i128 = (thr as i128) * (thr as i128);
    c * c <= t2 * l2
}

/// The clamped grid parameter of the point on the line through `o` along
/// `d` closest to `p`.
pub fn closest_parameter(p: Vector2, o: Vector2, d: Vector2) -> (r: i64)
    requires
        dir_coord_ok(p.x as int),
        dir_coord_ok(p.y as int),
        dir_coord_ok(o.x as int),
        dir_coord_ok(o.y as int),
        dir_coord_ok(d.x as int),
        dir_coord_ok(d.y as int),
        !(d.x == 0 && d.y == 0),
    ensures
        r as int == line_parameter(p, o, d),
{
    proof {
        lemma_mul_bound(p.x as int - o.x as int, d.x as int, 400_000_000, 200_000_000);
        lemma_mul_bound(p.y as int - o.y as int, d.y as int, 400_000_000, 200_000_000);
        lemma_mul_bound(d.x as int, d.x as int, 200_000_000, 200_000_000);
        lemma_mul_bound(d.y as int, d.y as int, 200_000_000, 200_000_000);
    }
    let dt: i128 = (p.x as i128 - o.x as i128) * (d.x as i128) + (p.y as i128 - o.y as i128) * (
    d.y as i128);
    let l2: i128 = (d.x as i128) * (d.x as i128) + (d.y as i128) * (d.y as i128);
    proof {
        lemma_len2_pos(d);
    }
    let q = trunc_div_i128(dt, l2);
    let lim: i128 = COORD_LIMIT as i128;
    if q < -lim {
        -COORD_LIMIT
    } else if q > lim {
        COORD_LIMIT
    } else {
        q as i64
    }
}

/// The squared distance from `p` to the line through `o` along `d`,
/// truncated to grid units: the metric by which line candidates are
/// ranked.
pub open spec fn line_q(p: Vector2, o: Vector2, d: Vector2) -> int
    recommends
        len2(d) != 0,
{
    trunc_div(line_side2(p, o, d), len2(d))
}

/// Compute the grid-truncated squared distance from `p` to a line.
pub fn line_metric(p: Vector2, o: Vector2, d: Vector2) -> (r: i128)
    requires
        dir_coord_ok(p.x as int),
        dir_coord_ok(p.y as int),
        dir_coord_ok(o.x as int),
        dir_coord_ok(o.y as int),
        dir_coord_ok(d.x as int),
        dir_coord_ok(d.y as int),
        !(d.x == 0 && d.y == 0),
    ensures
        r == line_q(p, o, d),
{
    proof {
        lemma_mul_bound(d.x as int, p.y as int - o.y as int, 200_000_000, 400_000_000);
        lemma_mul_bound(d.y as int, p.x as int - o.x as int, 200_000_000, 400_000_000);
        lemma_mul_bound(d.x as int, d.x as int, 200_000_000, 200_000_000);
        lemma_mul_bound(d.y as int, d.y as int, 200_000_000, 200_000_000);
        lemma_len2_pos(d);
    }
    let c: i128 = (d.x as i128) * (p.y as i128 - o.y as i128) - (d.y as i128) * (p.x as i128
        - o.x as i128);
    proof {
        lemma_mul_bound(c as int, c as int, 160_000_000_000_000_000, 160_000_000_000_000_000);
    }
    let l2: i128 = (d.x as i128) * (d.x as i128) + (d.y as i128) * (d.y as i128);
    trunc_div_i128(c * c, l2)
}

} // verus!
