//! Exact 2D vector algebra for the ray solver.
//!
//! Points and directions carry integer coordinates.  A direction is
//! meaningful up to positive scale, so the integer analogue of a normalized
//! vector is one reduced by the greatest common divisor of its components.
//! Intersection points are exact rational points (a pair of numerators over
//! a shared positive denominator, jointly reduced).

use vstd::prelude::*;

verus! {

use crate::num::{
    divides,
    gcd,
    gcd_u128,
    lemma_div_exact,
    lemma_gcd_divides,
};
use vstd::arithmetic::div_mod::{lemma_fundamental_div_mod_converse, lemma_small_mod};

/// Largest magnitude allowed for a scene (segment endpoint) coordinate.
pub const COORD_BOUND: i64 = 1_000_000;

/// Largest magnitude allowed for a ray origin coordinate.
pub const ORIGIN_BOUND: i64 = 2_000_000;

/// Largest magnitude allowed for a direction component.  Directions grow
/// when rays reflect off slanted surfaces; once a reduced direction exceeds
/// this bound the branch can no longer be propagated exactly and ends.
pub const DIR_BOUND: i64 = 0x0800_0000_0000_0000;

/// A 2D point or direction with integer coordinates.
#[derive(Clone, Copy, PartialEq, Eq, Structural, Debug)]
pub struct Vec2i {
    pub x: i64,
    pub y: i64,
}

/// An exact rational 2D point: `(xn / den, yn / den)` with `den > 0`.
#[derive(Clone, Copy, PartialEq, Eq, Structural, Debug)]
pub struct RatPoint {
    pub xn: i128,
    pub yn: i128,
    pub den: i128,
}

impl Vec2i {
    pub fn new(x: i64, y: i64) -> (v: Vec2i)
        ensures
            v == (Vec2i { x, y }),
    {
        Vec2i { x, y }
    }
}

/// Absolute value, as a natural number.
pub open spec fn abs_i(x: int) -> nat {
    if x >= 0 {
        x as nat
    } else {
        (-x) as nat
    }
}

/// 2D cross product (the z component of the 3D cross product).
pub open spec fn cross(ax: int, ay: int, bx: int, by: int) -> int {
    ax * by - ay * bx
}

/// 2D dot product.
pub open spec fn dot(ax: int, ay: int, bx: int, by: int) -> int {
    ax * bx + ay * by
}

/// Squared length of a vector.
pub open spec fn len2(v: Vec2i) -> int {
    dot(v.x as int, v.y as int, v.x as int, v.y as int)
}

/// The greatest common divisor of the magnitudes of two integers.
pub open spec fn gcd2(x: int, y: int) -> nat {
    gcd(abs_i(x), abs_i(y))
}

/// The quotient of `x` by the common divisor `g`, exact when `g` divides
/// `x`.
pub open spec fn quot(x: int, g: nat) -> int {
    x / (g as int)
}

/// A vector reduced by the greatest common divisor of its components; the
/// zero vector reduces to itself.
pub open spec fn spec_reduce_vec(x: int, y: int) -> (int, int) {
    let g: nat = gcd2(x, y);
    if g == 0 {
        (0int, 0int)
    } else {
        (quot(x, g), quot(y, g))
    }
}

/// A rational point reduced by the greatest common divisor of both
/// numerators and the (positive) denominator.
pub open spec fn spec_reduce_point(xn: int, yn: int, den: int) -> (int, int, int)
    recommends
        den > 0,
{
    let g: nat = gcd(gcd2(xn, yn), abs_i(den));
    (quot(xn, g), quot(yn, g), quot(den, g))
}

/// Scene coordinate within bounds.
pub open spec fn coord_ok(p: Vec2i) -> bool {
    -COORD_BOUND <= p.x <= COORD_BOUND && -COORD_BOUND <= p.y <= COORD_BOUND
}

/// Ray origin within bounds.
pub open spec fn origin_ok(p: Vec2i) -> bool {
    -ORIGIN_BOUND <= p.x <= ORIGIN_BOUND && -ORIGIN_BOUND <= p.y <= ORIGIN_BOUND
}

/// A usable direction: nonzero, within bounds.
pub open spec fn dir_ok(d: Vec2i) -> bool {
    (d.x != 0 || d.y != 0) && -DIR_BOUND <= d.x <= DIR_BOUND && -DIR_BOUND <= d.y <= DIR_BOUND
}

/// Exact division of a (possibly negative) value by a positive divisor that
/// divides it: the quotient times the divisor gives the value back.
pub proof fn lemma_div_exact_signed(x: int, d: nat)
    requires
        d > 0,
        divides(d, abs_i(x)),
    ensures
        quot(x, d) * (d as int) == x,
        abs_i(quot(x, d)) * d == abs_i(x),
{
    if x >= 0 {
        lemma_div_exact(x as nat, d);
    } else {
        let m: nat = abs_i(x);
        lemma_div_exact(m, d);
        let k: int = m as int / d as int;
        assert(x == (d as int) * (-k) + 0) by (nonlinear_arith)
            requires
                k * (d as int) == m,
                x == -(m as int),
        ;
        lemma_fundamental_div_mod_converse(x, d as int, -k, 0);
        assert((-k) * (d as int) == x) by (nonlinear_arith)
            requires
                k * (d as int) == m,
                x == -(m as int),
        ;
    }
}

/// The exact quotient of a value bounded by `B` is bounded by `B`.
pub proof fn lemma_quot_bound(x: int, d: nat, bound: int)
    requires
        d > 0,
        divides(d, abs_i(x)),
        abs_i(x) <= bound,
    ensures
        abs_i(quot(x, d)) <= bound,
{
    lemma_div_exact_signed(x, d);
    let q: int = quot(x, d);
    assert(abs_i(q) <= abs_i(q) * d) by (nonlinear_arith)
        requires
            d >= 1,
    ;
}

/// Unsigned absolute value of an `i64`.
fn abs64(x: i64) -> (r: u64)
    ensures
        r == abs_i(x as int),
{
    if x >= 0 {
        x as u64
    } else if x == i64::MIN {
        0x8000_0000_0000_0000u64
    } else {
        (-x) as u64
    }
}

/// Unsigned absolute value of an `i128`.
fn abs128(x: i128) -> (r: u128)
    requires
        x > i128::MIN,
    ensures
        r == abs_i(x as int),
{
    if x >= 0 {
        x as u128
    } else {
        (-x) as u128
    }
}

/// Exact division of `x` by a positive `g` that divides its magnitude.
fn div_exact_i128(x: i128, g: u128) -> (r: i128)
    requires
        x > i128::MIN,
        g > 0,
        divides(g as nat, abs_i(x as int)),
    ensures
        r == quot(x as int, g as nat),
        r as int * g as int == x as int,
        abs_i(r as int) <= abs_i(x as int),
        x >= 0 ==> r >= 0,
        x < 0 ==> r <= 0,
{
    proof {
        lemma_div_exact_signed(x as int, g as nat);
        lemma_quot_bound(x as int, g as nat, abs_i(x as int) as int);
    }
    if x >= 0 {
        let q: u128 = (x as u128) / g;
        proof {
            assert(q <= x as u128) by (nonlinear_arith)
                requires
                    q == (x as u128) / g,
                    g >= 1,
                    x >= 0,
            ;
        }
        q as i128
    } else {
        let m: u128 = (-x) as u128;
        let q: u128 = m / g;
        proof {
            lemma_div_exact(m as nat, g as nat);
            assert(q <= m) by (nonlinear_arith)
                requires
                    q == m / g,
                    g >= 1,
            ;
            let ghost qq: int = quot(x as int, g as nat);
            assert(qq == -(q as int)) by (nonlinear_arith)
                requires
                    qq * (g as int) == x,
                    (q as int) * (g as int) == m,
                    x == -(m as int),
                    g > 0,
            ;
        }
        -(q as i128)
    }
}

/// Reduce a vector by the greatest common divisor of its components.
pub fn reduce_vec(v: Vec2i) -> (r: Vec2i)
    ensures
        (r.x as int, r.y as int) == spec_reduce_vec(v.x as int, v.y as int),
{
    let ax: u64 = abs64(v.x);
    let ay: u64 = abs64(v.y);
    let g: u128 = gcd_u128(ax as u128, ay as u128);
    if g == 0 {
        return Vec2i { x: 0, y: 0 };
    }
    proof {
        lemma_gcd_divides(ax as nat, ay as nat);
        lemma_div_exact_signed(v.x as int, g as nat);
        lemma_div_exact_signed(v.y as int, g as nat);
        lemma_quot_bound(v.x as int, g as nat, abs_i(v.x as int) as int);
        lemma_quot_bound(v.y as int, g as nat, abs_i(v.y as int) as int);
    }
    let rx: i128 = div_exact_i128(v.x as i128, g);
    let ry: i128 = div_exact_i128(v.y as i128, g);
    Vec2i { x: rx as i64, y: ry as i64 }
}

/// Reduce a rational point by the greatest common divisor of its numerators
/// and denominator.
pub fn reduce_point(xn: i128, yn: i128, den: i128) -> (r: RatPoint)
    requires
        xn > i128::MIN,
        yn > i128::MIN,
        den > 0,
    ensures
        (r.xn as int, r.yn as int, r.den as int) == spec_reduce_point(
            xn as int,
            yn as int,
            den as int,
        ),
        r.den > 0,
{
    let ax: u128 = abs128(xn);
    let ay: u128 = abs128(yn);
    let ad: u128 = abs128(den);
    let g2: u128 = gcd_u128(ax, ay);
    let g: u128 = gcd_u128(g2, ad);
    proof {
        lemma_gcd_divides(g2 as nat, ad as nat);
        if ax > 0 || ay > 0 {
            lemma_gcd_divides(ax as nat, ay as nat);
            crate::num::lemma_divides_trans(g as nat, g2 as nat, ax as nat);
            crate::num::lemma_divides_trans(g as nat, g2 as nat, ay as nat);
        } else {
            lemma_small_mod(0, g as nat);
        }
        lemma_div_exact_signed(den as int, g as nat);
    }
    let rx: i128 = div_exact_i128(xn, g);
    let ry: i128 = div_exact_i128(yn, g);
    let rd: i128 = div_exact_i128(den, g);
    proof {
        assert(rd * g == den);
        assert(rd > 0) by (nonlinear_arith)
            requires
                rd as int * g as int == den as int,
                den > 0,
                g > 0,
        ;
    }
    RatPoint { xn: rx, yn: ry, den: rd }
}

/// The full result of intersecting a ray with a segment: the exact hit
/// point, the (reduced) surface normal, and the ray parameter `t` of the
/// hit as an exact nonnegative fraction `t_num / t_den`.
#[derive(Clone, Copy, PartialEq, Eq, Structural, Debug)]
pub struct HitParts {
    pub pos: RatPoint,
    pub normal: Vec2i,
    pub t_num: i128,
    pub t_den: i128,
}

/// All four intersection inputs are within the exact-arithmetic range.
pub open spec fn intersect_inputs_ok(o: Vec2i, d: Vec2i, a: Vec2i, b: Vec2i) -> bool {
    origin_ok(o) && dir_ok(d) && coord_ok(a) && coord_ok(b)
}

/// What intersecting the ray `o + t*d` (`t >= 0`) with the segment from `a`
/// to `b` returns.
///
/// The ray and the segment's supporting line are solved as a 2x2 linear
/// system by cross products: with `e = b - a` and `f = o - a`, the
/// determinant is `den = cross(d, e)`, the ray parameter is
/// `t = cross(e, f) / den` and the segment parameter is
/// `u = cross(d, f) / den`.  There is no intersection when the lines are
/// parallel (`den == 0`), when the hit is behind the ray origin (`t < 0`),
/// when it misses the segment (`u` outside `[0, 1]`), or when an input is
/// out of the supported coordinate range.
///
/// The normal is the perpendicular of the segment vector, oriented as the
/// perpendicular of the hit-relative endpoint vector: away from `a` unless
/// the hit is exactly `a` (`u == 0`), in which case away from `b`.  Its
/// sign is not disambiguated against the incoming ray; reflection and the
/// energy split are invariant under that sign.
pub open spec fn spec_intersect(o: Vec2i, d: Vec2i, a: Vec2i, b: Vec2i) -> Option<HitParts> {
    if !intersect_inputs_ok(o, d, a, b) {
        None
    } else {
        let ex: int = b.x - a.x;
        let ey: int = b.y - a.y;
        let fx: int = o.x - a.x;
        let fy: int = o.y - a.y;
        let den: int = cross(d.x as int, d.y as int, ex, ey);
        if den == 0 {
            None
        } else {
            let tn: int = cross(ex, ey, fx, fy);
            let un: int = cross(d.x as int, d.y as int, fx, fy);
            let t_ok: bool = if den > 0 {
                tn >= 0
            } else {
                tn <= 0
            };
            let u_ok: bool = if den > 0 {
                0 <= un <= den
            } else {
                den <= un <= 0
            };
            if !(t_ok && u_ok) {
                None
            } else {
                let t_num: int = if den > 0 {
                    tn
                } else {
                    -tn
                };
                let t_den: int = if den > 0 {
                    den
                } else {
                    -den
                };
                let hx: int = o.x * t_den + t_num * d.x;
                let hy: int = o.y * t_den + t_num * d.y;
                let p3: (int, int, int) = spec_reduce_point(hx, hy, t_den);
                let nrx: int = if un == 0 {
                    ey
                } else {
                    -ey
                };
                let nry: int = if un == 0 {
                    -ex
                } else {
                    ex
                };
                let nr: (int, int) = spec_reduce_vec(nrx, nry);
                Some(
                    HitParts {
                        pos: RatPoint { xn: p3.0 as i128, yn: p3.1 as i128, den: p3.2 as i128 },
                        normal: Vec2i { x: nr.0 as i64, y: nr.1 as i64 },
                        t_num: t_num as i128,
                        t_den: t_den as i128,
                    },
                )
            }
        }
    }
}

/// The product of two values bounded in magnitude is bounded by the product
/// of the bounds.
pub proof fn lemma_mul_range(a: int, b: int, ca: int, cb: int)
    by (nonlinear_arith)
    requires
        -ca <= a <= ca,
        -cb <= b <= cb,
        0 <= ca,
        0 <= cb,
    ensures
        -(ca * cb) <= a * b <= ca * cb,
{
}

/// Scene coordinate bounds check.
pub fn coord_in_bounds(p: Vec2i) -> (r: bool)
    ensures
        r == coord_ok(p),
{
    -COORD_BOUND <= p.x && p.x <= COORD_BOUND && -COORD_BOUND <= p.y && p.y <= COORD_BOUND
}

/// Ray origin bounds check.
pub fn origin_in_bounds(p: Vec2i) -> (r: bool)
    ensures
        r == origin_ok(p),
{
    -ORIGIN_BOUND <= p.x && p.x <= ORIGIN_BOUND && -ORIGIN_BOUND <= p.y && p.y <= ORIGIN_BOUND
}

/// Direction validity check.
pub fn dir_in_bounds(d: Vec2i) -> (r: bool)
    ensures
        r == dir_ok(d),
{
    (d.x != 0 || d.y != 0) && -DIR_BOUND <= d.x && d.x <= DIR_BOUND && -DIR_BOUND <= d.y && d.y
        <= DIR_BOUND
}

/// Intersect the ray `o + t*d` with the segment `[a, b]`, exactly.
pub fn intersect_parts(o: Vec2i, d: Vec2i, a: Vec2i, b: Vec2i) -> (r: Option<HitParts>)
    ensures
        r == spec_intersect(o, d, a, b),
{
    if !(origin_in_bounds(o) && dir_in_bounds(d) && coord_in_bounds(a) && coord_in_bounds(b)) {
        return None;
    }
    let exv: i128 = b.x as i128 - a.x as i128;
    let eyv: i128 = b.y as i128 - a.y as i128;
    let fxv: i128 = o.x as i128 - a.x as i128;
    let fyv: i128 = o.y as i128 - a.y as i128;
    proof {
        lemma_mul_range(d.x as int, eyv as int, DIR_BOUND as int, 2_000_000);
        lemma_mul_range(d.y as int, exv as int, DIR_BOUND as int, 2_000_000);
    }
    let den: i128 = d.x as i128 * eyv - d.y as i128 * exv;
    if den == 0 {
        return None;
    }
    proof {
        lemma_mul_range(exv as int, fyv as int, 2_000_000, 3_000_000);
        lemma_mul_range(eyv as int, fxv as int, 2_000_000, 3_000_000);
        lemma_mul_range(d.x as int, fyv as int, DIR_BOUND as int, 3_000_000);
        lemma_mul_range(d.y as int, fxv as int, DIR_BOUND as int, 3_000_000);
    }
    let tn: i128 = exv * fyv - eyv * fxv;
    let un: i128 = d.x as i128 * fyv - d.y as i128 * fxv;
    let t_ok: bool = if den > 0 {
        tn >= 0
    } else {
        tn <= 0
    };
    let u_ok: bool = if den > 0 {
        0 <= un && un <= den
    } else {
        den <= un && un <= 0
    };
    if !(t_ok && u_ok) {
        return None;
    }
    let t_num: i128 = if den > 0 {
        tn
    } else {
        -tn
    };
    let t_den: i128 = if den > 0 {
        den
    } else {
        -den
    };
    proof {
        lemma_mul_range(o.x as int, t_den as int, ORIGIN_BOUND as int, 0x4_0000_0000_0000_0000_0000
            as int);
        lemma_mul_range(o.y as int, t_den as int, ORIGIN_BOUND as int, 0x4_0000_0000_0000_0000_0000
            as int);
        lemma_mul_range(t_num as int, d.x as int, 0x2000_0000_0000 as int, DIR_BOUND as int);
        lemma_mul_range(t_num as int, d.y as int, 0x2000_0000_0000 as int, DIR_BOUND as int);
    }
    let hx: i128 = o.x as i128 * t_den + t_num * d.x as i128;
    let hy: i128 = o.y as i128 * t_den + t_num * d.y as i128;
    let pos: RatPoint = reduce_point(hx, hy, t_den);
    let nx: i128 = if un == 0 {
        eyv
    } else {
        -eyv
    };
    let ny: i128 = if un == 0 {
        -exv
    } else {
        exv
    };
    let nraw: Vec2i = Vec2i { x: nx as i64, y: ny as i64 };
    let normal: Vec2i = reduce_vec(nraw);
    Some(HitParts { pos, normal, t_num, t_den })
}

/// Largest magnitude allowed for a surface-normal component (a normal is a
/// reduced perpendicular of a segment vector, so its components never
/// exceed twice the scene coordinate bound).
pub const NORMAL_BOUND: i64 = 2_000_000;

/// A usable surface normal: nonzero, within bounds.
pub open spec fn normal_ok(n: Vec2i) -> bool {
    (n.x != 0 || n.y != 0) && -NORMAL_BOUND <= n.x <= NORMAL_BOUND && -NORMAL_BOUND <= n.y
        <= NORMAL_BOUND
}

/// The x component of the reflection of `(dx, dy)` about the normal
/// `(nx, ny)`, scaled by `|n|^2` so that it stays an integer:
/// `|n|^2 * d  -  2 (d . n) n`.
pub open spec fn refl_x(dx: int, dy: int, nx: int, ny: int) -> int {
    (nx * nx + ny * ny) * dx - 2 * (dx * nx + dy * ny) * nx
}

/// The y component of the scaled reflection.
pub open spec fn refl_y(dx: int, dy: int, nx: int, ny: int) -> int {
    (nx * nx + ny * ny) * dy - 2 * (dx * nx + dy * ny) * ny
}

/// The scaled reflection of a direction about a normal, x component.
pub open spec fn reflect_raw_x(d: Vec2i, n: Vec2i) -> int {
    refl_x(d.x as int, d.y as int, n.x as int, n.y as int)
}

/// The scaled reflection of a direction about a normal, y component.
pub open spec fn reflect_raw_y(d: Vec2i, n: Vec2i) -> int {
    refl_y(d.x as int, d.y as int, n.x as int, n.y as int)
}

/// What reflecting the direction `d` about the normal `n` returns: the
/// reduced scaled reflection, or nothing when an input is out of range or
/// the reduced result does not fit the direction bound.
pub open spec fn spec_reflect(d: Vec2i, n: Vec2i) -> Option<Vec2i> {
    if !dir_ok(d) || !normal_ok(n) {
        None
    } else {
        let rr: (int, int) = spec_reduce_vec(reflect_raw_x(d, n), reflect_raw_y(d, n));
        if (rr.0 != 0 || rr.1 != 0) && -DIR_BOUND <= rr.0 <= DIR_BOUND && -DIR_BOUND <= rr.1
            <= DIR_BOUND {
            Some(Vec2i { x: rr.0 as i64, y: rr.1 as i64 })
        } else {
            None
        }
    }
}

/// Reduce a vector with `i128` components.
fn reduce_vec128(x: i128, y: i128) -> (r: (i128, i128))
    requires
        x > i128::MIN,
        y > i128::MIN,
    ensures
        (r.0 as int, r.1 as int) == spec_reduce_vec(x as int, y as int),
        abs_i(r.0 as int) <= abs_i(x as int),
        abs_i(r.1 as int) <= abs_i(y as int),
{
    let ax: u128 = abs128(x);
    let ay: u128 = abs128(y);
    let g: u128 = gcd_u128(ax, ay);
    if g == 0 {
        return (0, 0);
    }
    proof {
        lemma_gcd_divides(ax as nat, ay as nat);
    }
    let rx: i128 = div_exact_i128(x, g);
    let ry: i128 = div_exact_i128(y, g);
    (rx, ry)
}

/// Reflection `d - 2 (d . n) n / |n|^2` of a direction about a surface
/// normal, computed exactly at scale `|n|^2` and then reduced: the integer
/// analogue of reflecting and renormalizing.  Returns nothing when an input
/// is out of range or the result cannot be represented.
pub fn reflect(direction: Vec2i, normal: Vec2i) -> (r: Option<Vec2i>)
    ensures
        r == spec_reflect(direction, normal),
        r is Some ==> dir_ok(r->Some_0),
{
    if !dir_in_bounds(direction) {
        return None;
    }
    if !((normal.x != 0 || normal.y != 0) && -NORMAL_BOUND <= normal.x && normal.x <= NORMAL_BOUND
        && -NORMAL_BOUND <= normal.y && normal.y <= NORMAL_BOUND) {
        return None;
    }
    proof {
        lemma_mul_range(normal.x as int, normal.x as int, NORMAL_BOUND as int, NORMAL_BOUND as int);
        lemma_mul_range(normal.y as int, normal.y as int, NORMAL_BOUND as int, NORMAL_BOUND as int);
        lemma_mul_range(direction.x as int, normal.x as int, DIR_BOUND as int, NORMAL_BOUND as int);
        lemma_mul_range(direction.y as int, normal.y as int, DIR_BOUND as int, NORMAL_BOUND as int);
    }
    let n2: i128 = normal.x as i128 * normal.x as i128 + normal.y as i128 * normal.y as i128;
    let dn: i128 = direction.x as i128 * normal.x as i128 + direction.y as i128 * normal.y as i128;
    let dn2: i128 = 2 * dn;
    proof {
        lemma_mul_range(n2 as int, direction.x as int, 0x4_0000_0000_0000 as int, DIR_BOUND as int);
        lemma_mul_range(n2 as int, direction.y as int, 0x4_0000_0000_0000 as int, DIR_BOUND as int);
        lemma_mul_range(dn2 as int, normal.x as int, 0x4_0000_0000_0000_0000_0000 as int,
            NORMAL_BOUND as int);
        lemma_mul_range(dn2 as int, normal.y as int, 0x4_0000_0000_0000_0000_0000 as int,
            NORMAL_BOUND as int);
    }
    let rx_raw: i128 = n2 * direction.x as i128 - dn2 * normal.x as i128;
    let ry_raw: i128 = n2 * direction.y as i128 - dn2 * normal.y as i128;
    let rr: (i128, i128) = reduce_vec128(rx_raw, ry_raw);
    if (rr.0 != 0 || rr.1 != 0) && -DIR_BOUND as i128 <= rr.0 && rr.0 <= DIR_BOUND as i128
        && -DIR_BOUND as i128 <= rr.1 && rr.1 <= DIR_BOUND as i128 {
        Some(Vec2i { x: rr.0 as i64, y: rr.1 as i64 })
    } else {
        None
    }
}

/// The scaled reflection preserves squared length at scale `|n|^2`: the
/// squared length of the raw reflection is exactly `|n|^4` times the
/// squared length of the input.  This is the exact-arithmetic form of
/// "reflecting a unit vector yields a unit vector".
proof fn lemma_reflect_len_ints(
    dx: int,
    dy: int,
    nx: int,
    ny: int,
    n2: int,
    dn: int,
    rx: int,
    ry: int,
)
    requires
        n2 == nx * nx + ny * ny,
        dn == dx * nx + dy * ny,
        rx == n2 * dx - 2 * dn * nx,
        ry == n2 * dy - 2 * dn * ny,
    ensures
        rx * rx + ry * ry == (n2 * n2) * (dx * dx + dy * dy),
{
    let ax: int = n2 * dx;
    let ay: int = n2 * dy;
    let bx: int = 2 * dn * nx;
    let by: int = 2 * dn * ny;
    assert(rx * rx == ax * ax - 2 * (ax * bx) + bx * bx) by (nonlinear_arith)
        requires
            rx == ax - bx,
    ;
    assert(ry * ry == ay * ay - 2 * (ay * by) + by * by) by (nonlinear_arith)
        requires
            ry == ay - by,
    ;
    assert(ax * ax == (n2 * n2) * (dx * dx)) by (nonlinear_arith)
        requires
            ax == n2 * dx,
    ;
    assert(ay * ay == (n2 * n2) * (dy * dy)) by (nonlinear_arith)
        requires
            ay == n2 * dy,
    ;
    assert(ax * bx == 2 * ((n2 * dn) * (dx * nx))) by (nonlinear_arith)
        requires
            ax == n2 * dx,
            bx == 2 * dn * nx,
    ;
    assert(ay * by == 2 * ((n2 * dn) * (dy * ny))) by (nonlinear_arith)
        requires
            ay == n2 * dy,
            by == 2 * dn * ny,
    ;
    assert(bx * bx == 4 * ((dn * dn) * (nx * nx))) by (nonlinear_arith)
        requires
            bx == 2 * dn * nx,
    ;
    assert(by * by == 4 * ((dn * dn) * (ny * ny))) by (nonlinear_arith)
        requires
            by == 2 * dn * ny,
    ;
    assert((n2 * n2) * (dx * dx) + (n2 * n2) * (dy * dy) == (n2 * n2) * (dx * dx + dy * dy))
        by (nonlinear_arith);
    assert((n2 * dn) * (dx * nx) + (n2 * dn) * (dy * ny) == (n2 * dn) * dn) by (nonlinear_arith)
        requires
            dn == dx * nx + dy * ny,
    ;
    assert((dn * dn) * (nx * nx) + (dn * dn) * (ny * ny) == (dn * dn) * n2) by (nonlinear_arith)
        requires
            n2 == nx * nx + ny * ny,
    ;
    assert((n2 * dn) * dn == (dn * dn) * n2) by (nonlinear_arith);
}

/// Reflection preserves length: the raw reflection of `d` about `n` has
/// squared length `|n|^4 * |d|^2`, so a direction reflected about any
/// nonzero normal stays a valid (nonzero) direction of the same length,
/// once the scale factor `|n|^2` is divided away by reduction.
pub proof fn lemma_reflect_preserves_length(d: Vec2i, n: Vec2i)
    ensures
        reflect_raw_x(d, n) * reflect_raw_x(d, n) + reflect_raw_y(d, n) * reflect_raw_y(d, n)
            == (len2(n) * len2(n)) * len2(d),
{
    lemma_reflect_len_ints(
        d.x as int,
        d.y as int,
        n.x as int,
        n.y as int,
        len2(n),
        dot(d.x as int, d.y as int, n.x as int, n.y as int),
        reflect_raw_x(d, n),
        reflect_raw_y(d, n),
    );
}

/// Reflecting twice about the same normal is the identity, up to the
/// positive scale factor `|n|^4`.
proof fn lemma_reflect_involution_ints(
    dx: int,
    dy: int,
    nx: int,
    ny: int,
    n2: int,
    dn: int,
    rx: int,
    ry: int,
    rdn: int,
    sx: int,
    sy: int,
)
    requires
        n2 == nx * nx + ny * ny,
        dn == dx * nx + dy * ny,
        rx == n2 * dx - 2 * dn * nx,
        ry == n2 * dy - 2 * dn * ny,
        rdn == rx * nx + ry * ny,
        sx == n2 * rx - 2 * rdn * nx,
        sy == n2 * ry - 2 * rdn * ny,
    ensures
        sx == (n2 * n2) * dx,
        sy == (n2 * n2) * dy,
{
    // The reflection flips the normal component of the direction:
    // r . n == -(d . n), at the working scale |n|^2.
    assert(rdn == -(n2 * dn)) by (nonlinear_arith)
        requires
            rdn == rx * nx + ry * ny,
            rx == n2 * dx - 2 * dn * nx,
            ry == n2 * dy - 2 * dn * ny,
            n2 == nx * nx + ny * ny,
            dn == dx * nx + dy * ny,
    ;
    assert(sx == (n2 * n2) * dx) by (nonlinear_arith)
        requires
            sx == n2 * rx - 2 * rdn * nx,
            rx == n2 * dx - 2 * dn * nx,
            rdn == -(n2 * dn),
    ;
    assert(sy == (n2 * n2) * dy) by (nonlinear_arith)
        requires
            sy == n2 * ry - 2 * rdn * ny,
            ry == n2 * dy - 2 * dn * ny,
            rdn == -(n2 * dn),
    ;
}

/// Reflection is an involution: reflecting the reflection of `d` about the
/// same normal gives back `d`, up to the positive scale `|n|^4` that the
/// two scaled reflections accumulate.
pub proof fn lemma_reflect_involution(dx: int, dy: int, nx: int, ny: int)
    ensures
        refl_x(refl_x(dx, dy, nx, ny), refl_y(dx, dy, nx, ny), nx, ny) == ((nx * nx + ny * ny) * (nx
            * nx + ny * ny)) * dx,
        refl_y(refl_x(dx, dy, nx, ny), refl_y(dx, dy, nx, ny), nx, ny) == ((nx * nx + ny * ny) * (nx
            * nx + ny * ny)) * dy,
{
    let n2: int = nx * nx + ny * ny;
    let dn: int = dx * nx + dy * ny;
    let rx: int = refl_x(dx, dy, nx, ny);
    let ry: int = refl_y(dx, dy, nx, ny);
    lemma_reflect_involution_ints(
        dx,
        dy,
        nx,
        ny,
        n2,
        dn,
        rx,
        ry,
        rx * nx + ry * ny,
        refl_x(rx, ry, nx, ny),
        refl_y(rx, ry, nx, ny),
    );
}

/// Reducing a nonzero vector keeps its direction: the reduced vector times
/// the (positive) common divisor is the original vector.
pub proof fn lemma_reduce_vec_value(x: int, y: int)
    requires
        x != 0 || y != 0,
    ensures
        gcd2(x, y) >= 1,
        spec_reduce_vec(x, y).0 * gcd2(x, y) == x,
        spec_reduce_vec(x, y).1 * gcd2(x, y) == y,
        spec_reduce_vec(x, y).0 != 0 || spec_reduce_vec(x, y).1 != 0,
        abs_i(spec_reduce_vec(x, y).0) <= abs_i(x),
        abs_i(spec_reduce_vec(x, y).1) <= abs_i(y),
{
    lemma_gcd_divides(abs_i(x), abs_i(y));
    let g: nat = gcd2(x, y);
    lemma_div_exact_signed(x, g);
    lemma_div_exact_signed(y, g);
    lemma_quot_bound(x, g, abs_i(x) as int);
    lemma_quot_bound(y, g, abs_i(y) as int);
    if spec_reduce_vec(x, y).0 == 0 && spec_reduce_vec(x, y).1 == 0 {
        assert(x == 0 && y == 0) by (nonlinear_arith)
            requires
                spec_reduce_vec(x, y).0 * gcd2(x, y) == x,
                spec_reduce_vec(x, y).1 * gcd2(x, y) == y,
                spec_reduce_vec(x, y).0 == 0,
                spec_reduce_vec(x, y).1 == 0,
        ;
    }
}

/// Reducing a rational point keeps its value: the reduced numerators and
/// denominator are the originals divided by one positive common divisor,
/// so the fractions are equal by cross multiplication.
pub proof fn lemma_reduce_point_value(xn: int, yn: int, den: int)
    requires
        den > 0,
    ensures
        ({
            let p = spec_reduce_point(xn, yn, den);
            &&& p.2 > 0
            &&& p.2 <= den
            &&& abs_i(p.0) <= abs_i(xn)
            &&& abs_i(p.1) <= abs_i(yn)
            &&& p.0 * den == xn * p.2
            &&& p.1 * den == yn * p.2
        }),
{
    let g2: nat = gcd2(xn, yn);
    let ad: nat = abs_i(den);
    let g: nat = gcd(g2, ad);
    lemma_gcd_divides(g2, ad);
    if abs_i(xn) > 0 || abs_i(yn) > 0 {
        lemma_gcd_divides(abs_i(xn), abs_i(yn));
        crate::num::lemma_divides_trans(g, g2, abs_i(xn));
        crate::num::lemma_divides_trans(g, g2, abs_i(yn));
    } else {
        lemma_small_mod(0, g);
    }
    lemma_div_exact_signed(xn, g);
    lemma_div_exact_signed(yn, g);
    lemma_div_exact_signed(den, g);
    lemma_quot_bound(xn, g, abs_i(xn) as int);
    lemma_quot_bound(yn, g, abs_i(yn) as int);
    lemma_quot_bound(den, g, abs_i(den) as int);
    let p = spec_reduce_point(xn, yn, den);
    assert(p.2 > 0) by (nonlinear_arith)
        requires
            p.2 * (g as int) == den,
            den > 0,
            g > 0,
    ;
    assert(p.0 * den == xn * p.2) by (nonlinear_arith)
        requires
            p.0 * (g as int) == xn,
            p.2 * (g as int) == den,
    ;
    assert(p.1 * den == yn * p.2) by (nonlinear_arith)
        requires
            p.1 * (g as int) == yn,
            p.2 * (g as int) == den,
    ;
}

/// A ray parallel to a segment never hits it: when the cross product of the
/// ray direction and the segment vector is zero, the intersection is empty,
/// whatever the offset between the two lines.
pub proof fn lemma_parallel_never_hits(o: Vec2i, d: Vec2i, a: Vec2i, b: Vec2i)
    requires
        cross(d.x as int, d.y as int, b.x - a.x, b.y - a.y) == 0,
    ensures
        spec_intersect(o, d, a, b) is None,
{
}

/// Everything the propagation loop needs to know about a successful
/// intersection: the reduced denominator is positive, all parts are
/// bounded, the normal is usable, the hit lies on the ray at parameter
/// `t_num / t_den`, and the hit lies inside the segment's coordinate box.
pub proof fn lemma_intersect_props(o: Vec2i, d: Vec2i, a: Vec2i, b: Vec2i)
    requires
        spec_intersect(o, d, a, b) is Some,
    ensures
        ({
            let h = spec_intersect(o, d, a, b)->Some_0;
            &&& h.pos.den > 0
            &&& 0 <= h.t_num < 0x1000_0000_0000
            &&& 0 < h.t_den <= 0x3_0000_0000_0000_0000_0000
            &&& h.pos.den <= h.t_den
            &&& abs_i(h.pos.xn as int) <= 0x1_0000_0000_0000_0000_0000_0000_0000
            &&& abs_i(h.pos.yn as int) <= 0x1_0000_0000_0000_0000_0000_0000_0000
            &&& normal_ok(h.normal)
            &&& h.pos.xn * h.t_den == (o.x * h.t_den + h.t_num * d.x) * h.pos.den
            &&& h.pos.yn * h.t_den == (o.y * h.t_den + h.t_num * d.y) * h.pos.den
            &&& -1_000_000 * h.pos.den <= h.pos.xn <= 1_000_000 * h.pos.den
            &&& -1_000_000 * h.pos.den <= h.pos.yn <= 1_000_000 * h.pos.den
        }),
{
    let ex: int = b.x - a.x;
    let ey: int = b.y - a.y;
    let fx: int = o.x - a.x;
    let fy: int = o.y - a.y;
    let den: int = cross(d.x as int, d.y as int, ex, ey);
    let tn: int = cross(ex, ey, fx, fy);
    let un: int = cross(d.x as int, d.y as int, fx, fy);
    let t_num: int = if den > 0 { tn } else { -tn };
    let t_den: int = if den > 0 { den } else { -den };
    let u_num: int = if den > 0 { un } else { -un };
    let hx: int = o.x * t_den + t_num * d.x;
    let hy: int = o.y * t_den + t_num * d.y;
    let h = spec_intersect(o, d, a, b)->Some_0;
    // Magnitude bounds for every intermediate product.
    lemma_mul_range(d.x as int, ey, DIR_BOUND as int, 2_000_000);
    lemma_mul_range(d.y as int, ex, DIR_BOUND as int, 2_000_000);
    lemma_mul_range(ex, fy, 2_000_000, 3_000_000);
    lemma_mul_range(ey, fx, 2_000_000, 3_000_000);
    lemma_mul_range(o.x as int, t_den, 2_000_000, 0x3_0000_0000_0000_0000_0000 as int);
    lemma_mul_range(o.y as int, t_den, 2_000_000, 0x3_0000_0000_0000_0000_0000 as int);
    lemma_mul_range(t_num, d.x as int, 0x1000_0000_0000 as int, DIR_BOUND as int);
    lemma_mul_range(t_num, d.y as int, 0x1000_0000_0000 as int, DIR_BOUND as int);
    lemma_reduce_point_value(hx, hy, t_den);
    let p = spec_reduce_point(hx, hy, t_den);
    assert(h.pos.xn == p.0 && h.pos.yn == p.1 && h.pos.den == p.2);
    assert(h.t_num == t_num && h.t_den == t_den);
    // The hit, in segment coordinates: hx == a.x * t_den + u_num * ex.
    assert(fx * (d.x * ey - d.y * ex) + (ex * fy - ey * fx) * d.x - (d.x * fy - d.y * fx) * ex == 0)
        by (nonlinear_arith);
    assert(fy * (d.x * ey - d.y * ex) + (ex * fy - ey * fx) * d.y - (d.x * fy - d.y * fx) * ey == 0)
        by (nonlinear_arith);
    assert(o.x * den - a.x * den == fx * den) by (nonlinear_arith)
        requires
            fx == o.x - a.x,
    ;
    assert(o.y * den - a.y * den == fy * den) by (nonlinear_arith)
        requires
            fy == o.y - a.y,
    ;
    assert(o.x * den + tn * d.x == a.x * den + un * ex);
    assert(o.y * den + tn * d.y == a.y * den + un * ey);
    assert(hx == a.x * t_den + u_num * ex && hy == a.y * t_den + u_num * ey) by (nonlinear_arith)
        requires
            hx == o.x * t_den + t_num * d.x,
            hy == o.y * t_den + t_num * d.y,
            o.x * den + tn * d.x == a.x * den + un * ex,
            o.y * den + tn * d.y == a.y * den + un * ey,
            t_den == (if den > 0 { den } else { -den }),
            t_num == (if den > 0 { tn } else { -tn }),
            u_num == (if den > 0 { un } else { -un }),
    ;
    assert(0 <= u_num <= t_den);
    // The hit's value lies inside the segment's coordinate box.
    assert(-1_000_000 * t_den <= hx <= 1_000_000 * t_den) by (nonlinear_arith)
        requires
            hx == a.x * t_den + u_num * ex,
            0 <= u_num <= t_den,
            t_den > 0,
            -1_000_000 <= a.x <= 1_000_000,
            -1_000_000 <= a.x + ex <= 1_000_000,
    ;
    assert(-1_000_000 * t_den <= hy <= 1_000_000 * t_den) by (nonlinear_arith)
        requires
            hy == a.y * t_den + u_num * ey,
            0 <= u_num <= t_den,
            t_den > 0,
            -1_000_000 <= a.y <= 1_000_000,
            -1_000_000 <= a.y + ey <= 1_000_000,
    ;
    // ... and so does the reduced hit point.
    assert(-1_000_000 * p.2 <= p.0 <= 1_000_000 * p.2) by (nonlinear_arith)
        requires
            p.0 * t_den == hx * p.2,
            -1_000_000 * t_den <= hx <= 1_000_000 * t_den,
            t_den > 0,
            p.2 > 0,
    ;
    assert(-1_000_000 * p.2 <= p.1 <= 1_000_000 * p.2) by (nonlinear_arith)
        requires
            p.1 * t_den == hy * p.2,
            -1_000_000 * t_den <= hy <= 1_000_000 * t_den,
            t_den > 0,
            p.2 > 0,
    ;
    // The normal is a reduced perpendicular of the (nonzero) segment vector.
    let nrx: int = if un == 0 { ey } else { -ey };
    let nry: int = if un == 0 { -ex } else { ex };
    assert(ex != 0 || ey != 0) by (nonlinear_arith)
        requires
            d.x * ey - d.y * ex != 0,
    ;
    lemma_reduce_vec_value(nrx, nry);
    // The on-ray relation, from value preservation of the reduction.
    assert(h.pos.xn * h.t_den == (o.x * h.t_den + h.t_num * d.x) * h.pos.den);
    assert(h.pos.yn * h.t_den == (o.y * h.t_den + h.t_num * d.y) * h.pos.den);
}

/// The direction from `o` towards the midpoint of the segment `[a, b]`,
/// doubled so that it stays an integer vector.
pub open spec fn dir_to_midpoint(o: Vec2i, a: Vec2i, b: Vec2i) -> Vec2i {
    Vec2i {
        x: (a.x + b.x - 2 * o.x) as i64,
        y: (a.y + b.y - 2 * o.y) as i64,
    }
}

/// A ray aimed exactly at the midpoint of a segment from a point outside
/// the segment's supporting line hits it, and the hit position is exactly
/// the midpoint `((a + b) / 2)`.
pub proof fn lemma_midpoint_hit(o: Vec2i, a: Vec2i, b: Vec2i)
    requires
        origin_ok(o),
        coord_ok(a),
        coord_ok(b),
        cross(a.x + b.x - 2 * o.x, a.y + b.y - 2 * o.y, b.x - a.x, b.y - a.y) != 0,
    ensures
        spec_intersect(o, dir_to_midpoint(o, a, b), a, b) is Some,
        ({
            let h = spec_intersect(o, dir_to_midpoint(o, a, b), a, b)->Some_0;
            &&& h.pos.den > 0
            &&& 2 * h.pos.xn == (a.x + b.x) * h.pos.den
            &&& 2 * h.pos.yn == (a.y + b.y) * h.pos.den
        }),
{
    let d = dir_to_midpoint(o, a, b);
    assert(d.x == a.x + b.x - 2 * o.x && d.y == a.y + b.y - 2 * o.y);
    assert(!(d.x == 0 && d.y == 0)) by (nonlinear_arith)
        requires
            cross(a.x + b.x - 2 * o.x, a.y + b.y - 2 * o.y, b.x - a.x, b.y - a.y) != 0,
            d.x == a.x + b.x - 2 * o.x,
            d.y == a.y + b.y - 2 * o.y,
    ;
    let ex: int = b.x - a.x;
    let ey: int = b.y - a.y;
    let fx: int = o.x - a.x;
    let fy: int = o.y - a.y;
    let den: int = cross(d.x as int, d.y as int, ex, ey);
    let tn: int = cross(ex, ey, fx, fy);
    let un: int = cross(d.x as int, d.y as int, fx, fy);
    assert(den != 0);
    // Aiming at the midpoint makes both parameters exactly one half.
    assert(den == 2 * tn && den == 2 * un) by (nonlinear_arith)
        requires
            den == (a.x + b.x - 2 * o.x) * (b.y - a.y) - (a.y + b.y - 2 * o.y) * (b.x - a.x),
            tn == (b.x - a.x) * (o.y - a.y) - (b.y - a.y) * (o.x - a.x),
            un == (a.x + b.x - 2 * o.x) * (o.y - a.y) - (a.y + b.y - 2 * o.y) * (o.x - a.x),
    ;
    let t_num: int = if den > 0 { tn } else { -tn };
    let t_den: int = if den > 0 { den } else { -den };
    assert(t_den == 2 * t_num && t_den > 0 && t_num > 0);
    let hx: int = o.x * t_den + t_num * d.x;
    let hy: int = o.y * t_den + t_num * d.y;
    assert(2 * hx == (a.x + b.x) * t_den && 2 * hy == (a.y + b.y) * t_den) by (nonlinear_arith)
        requires
            hx == o.x * t_den + t_num * d.x,
            hy == o.y * t_den + t_num * d.y,
            t_den == 2 * t_num,
            d.x == a.x + b.x - 2 * o.x,
            d.y == a.y + b.y - 2 * o.y,
    ;
    assert(intersect_inputs_ok(o, d, a, b));
    assert(spec_intersect(o, d, a, b) is Some);
    lemma_mul_range(d.x as int, ey, 6_000_000, 2_000_000);
    lemma_mul_range(d.y as int, ex, 6_000_000, 2_000_000);
    lemma_mul_range(ex, fy, 2_000_000, 3_000_000);
    lemma_mul_range(ey, fx, 2_000_000, 3_000_000);
    lemma_mul_range(o.x as int, t_den, 2_000_000, 0x2_0000_0000_0000 as int);
    lemma_mul_range(o.y as int, t_den, 2_000_000, 0x2_0000_0000_0000 as int);
    lemma_mul_range(t_num as int, d.x as int, 0x2_0000_0000_0000 as int, 6_000_000);
    lemma_mul_range(t_num as int, d.y as int, 0x2_0000_0000_0000 as int, 6_000_000);
    lemma_reduce_point_value(hx, hy, t_den);
    let p = spec_reduce_point(hx, hy, t_den);
    assert(2 * p.0 == (a.x + b.x) * p.2 && 2 * p.1 == (a.y + b.y) * p.2) by (nonlinear_arith)
        requires
            p.0 * t_den == hx * p.2,
            p.1 * t_den == hy * p.2,
            2 * hx == (a.x + b.x) * t_den,
            2 * hy == (a.y + b.y) * t_den,
            t_den > 0,
    ;
    let h = spec_intersect(o, d, a, b)->Some_0;
    assert(h.pos.xn == p.0 && h.pos.yn == p.1 && h.pos.den == p.2);
}

} // verus!
