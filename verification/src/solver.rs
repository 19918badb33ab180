//! The ray propagation solver.
//!
//! A work queue of rays is seeded with the laser's ray and processed in
//! first-in first-out order (breadth-first across splits).  Each ray is
//! intersected against every segment of the scene; the nearest hit decides
//! what happens: an absorptive segment ends the branch, a reflective one
//! enqueues the mirrored ray, and a transparent one splits the ray into a
//! reflected and a transmitted branch whose energies add up exactly to the
//! energy of the incoming ray.  A branch also ends when its energy falls to
//! the exhaustion threshold, and the whole solve stops at a global cap on
//! emitted segments, so it terminates even between facing mirrors.
//!
//! Colour and energy are carried in millionths (parts per million) of full
//! intensity; the alpha channel is the energy that drives exhaustion.

use vstd::prelude::*;

verus! {

use crate::geom::{
    abs_i,
    coord_ok,
    dir_ok,
    dot,
    len2,
    normal_ok,
    origin_ok,
    spec_intersect,
    spec_reflect,
    HitParts,
    RatPoint,
    Vec2i,
};
use crate::network::{EdgeState, Segment};
use std::collections::VecDeque;
use crate::num::{div_floor_i128, is_isqrt, isqrt, isqrt_u128};
use vstd::arithmetic::div_mod::{
    lemma_div_is_ordered,
    lemma_div_multiples_vanish,
    lemma_fundamental_div_mod_converse,
};

/// Full intensity, in parts per million.
pub const PPM: u32 = 1_000_000;

/// A ray whose energy (alpha) is at or below this threshold is discarded.
pub const ENERGY_MIN: u32 = 100_000;

/// The cosine of the total-internal-reflection boundary angle, in
/// millionths.  A transparent hit whose incidence cosine quantizes to
/// exactly this value reflects all of its energy and transmits nothing.
pub const CRITICAL_COS_PPM: u32 = 659_307;

/// Divisor that turns `97 * cos_ppm^6` into the transmission weight in
/// parts per million: `100 * (10^6)^5 * 10^6`.
pub const FRESNEL_DIV: u128 = 100_000_000_000_000_000_000_000_000_000_000;

/// A colour (and energy) value, each channel in parts per million of full
/// intensity.  The alpha channel doubles as the ray's energy.
#[derive(Clone, Copy, PartialEq, Eq, Structural, Debug)]
pub struct Color {
    pub r: u32,
    pub g: u32,
    pub b: u32,
    pub a: u32,
}

/// A light ray: origin, direction (an integer vector, meaningful up to
/// positive scale), and carried colour/energy.
#[derive(Clone, Copy, PartialEq, Eq, Structural, Debug)]
pub struct Ray {
    pub origin: Vec2i,
    pub direction: Vec2i,
    pub color: Color,
}

/// The result of intersecting a ray with a segment: the exact hit point and
/// the surface normal there.  The normal's sign is not disambiguated
/// against the incoming ray; everything computed from it is invariant under
/// that sign.
#[derive(PartialEq, Eq, Structural, Debug, Clone, Copy)]
pub struct CollisionInfo {
    pub position: RatPoint,
    pub normal: Vec2i,
}

/// The quantized incidence cosine between a direction and a normal, in
/// millionths: `|d . n| * 10^6` divided by the integer square roots of the
/// squared lengths, clamped to one.
pub open spec fn spec_cos_ppm(d: Vec2i, n: Vec2i) -> int {
    let dn: int = dot(d.x as int, d.y as int, n.x as int, n.y as int);
    let sd: int = isqrt(len2(d) as nat) as int;
    let sn: int = isqrt(len2(n) as nat) as int;
    let c: int = (abs_i(dn) as int * 1_000_000) / (sd * sn);
    if c > 1_000_000 {
        1_000_000int
    } else {
        c
    }
}

/// The stylized transmission weight of a transparent surface, in parts per
/// million: `0.97 * cos^6` of the incidence angle.  This is the split
/// actually used by the solver; the physically motivated Schlick formula
/// exists separately as [`FresnelReflectAmount`].
pub open spec fn spec_fresnel_ppm(d: Vec2i, n: Vec2i) -> int {
    let c: int = spec_cos_ppm(d, n);
    let c3: int = c * c * c;
    (97 * (c3 * c3)) / (FRESNEL_DIV as int)
}

/// Exact squared lengths are nonnegative, and positive for nonzero vectors.
proof fn lemma_len2_pos(v: Vec2i)
    ensures
        len2(v) >= 0,
        (v.x != 0 || v.y != 0) ==> len2(v) >= 1,
{
    assert(len2(v) == v.x * v.x + v.y * v.y);
    assert(v.x * v.x >= 0 && v.y * v.y >= 0 && (v.x != 0 ==> v.x * v.x >= 1) && (v.y != 0 ==> v.y
        * v.y >= 1)) by (nonlinear_arith);
}

/// The integer square root of a positive value is positive and bounded by
/// the value.
proof fn lemma_isqrt_bounds(n: nat, bound: nat)
    requires
        is_isqrt(n, isqrt(n)),
        n <= bound * bound,
    ensures
        n >= 1 ==> isqrt(n) >= 1,
        isqrt(n) <= bound,
{
    let s = isqrt(n);
    if n >= 1 && s == 0 {
        assert((s + 1) * (s + 1) == 1) by (nonlinear_arith)
            requires
                s == 0nat,
        ;
    }
    if s > bound {
        assert(bound * bound < s * s) by (nonlinear_arith)
            requires
                bound < s,
        ;
    }
}

/// The quantized incidence cosine, executable.
pub fn cos_ppm(d: Vec2i, n: Vec2i) -> (r: u32)
    requires
        dir_ok(d),
        normal_ok(n),
    ensures
        r == spec_cos_ppm(d, n),
        r <= 1_000_000,
{
    proof {
        crate::geom::lemma_mul_range(d.x as int, d.x as int, crate::geom::DIR_BOUND as int,
            crate::geom::DIR_BOUND as int);
        crate::geom::lemma_mul_range(d.y as int, d.y as int, crate::geom::DIR_BOUND as int,
            crate::geom::DIR_BOUND as int);
        crate::geom::lemma_mul_range(n.x as int, n.x as int, crate::geom::NORMAL_BOUND as int,
            crate::geom::NORMAL_BOUND as int);
        crate::geom::lemma_mul_range(n.y as int, n.y as int, crate::geom::NORMAL_BOUND as int,
            crate::geom::NORMAL_BOUND as int);
        crate::geom::lemma_mul_range(d.x as int, n.x as int, crate::geom::DIR_BOUND as int,
            crate::geom::NORMAL_BOUND as int);
        crate::geom::lemma_mul_range(d.y as int, n.y as int, crate::geom::DIR_BOUND as int,
            crate::geom::NORMAL_BOUND as int);
        lemma_len2_pos(d);
        lemma_len2_pos(n);
    }
    let d2: i128 = d.x as i128 * d.x as i128 + d.y as i128 * d.y as i128;
    let n2: i128 = n.x as i128 * n.x as i128 + n.y as i128 * n.y as i128;
    let dn: i128 = d.x as i128 * n.x as i128 + d.y as i128 * n.y as i128;
    let sd: u128 = isqrt_u128(d2 as u128);
    let sn: u128 = isqrt_u128(n2 as u128);
    proof {
        lemma_isqrt_bounds(d2 as nat, 0x1000_0000_0000_0000);
        lemma_isqrt_bounds(n2 as nat, 3_000_000);
        assert(1 <= sd * sn <= 0x2D79_883D_2000_0000_0000_0000int) by (nonlinear_arith)
            requires
                1 <= sd <= 0x1000_0000_0000_0000,
                1 <= sn <= 3_000_000,
        ;
    }
    let adn: u128 = if dn >= 0 {
        dn as u128
    } else {
        (-dn) as u128
    };
    let num: u128 = adn * 1_000_000;
    let div: u128 = sd * sn;
    let c: u128 = num / div;
    if c > 1_000_000 {
        1_000_000
    } else {
        c as u32
    }
}

/// The stylized transmission weight, executable.
pub fn fresnel_ppm(d: Vec2i, n: Vec2i) -> (r: u32)
    requires
        dir_ok(d),
        normal_ok(n),
    ensures
        r == spec_fresnel_ppm(d, n),
        r <= 970_000,
{
    let c: u128 = cos_ppm(d, n) as u128;
    proof {
        assert(c * c <= 1_000_000_000_000int && c * c * c <= 1_000_000_000_000_000_000int)
            by (nonlinear_arith)
            requires
                0 <= c <= 1_000_000,
        ;
    }
    let c3: u128 = c * c * c;
    proof {
        assert(c3 * c3 <= 1_000_000_000_000_000_000_000_000_000_000_000_000int) by (nonlinear_arith)
            requires
                0 <= c3 <= 1_000_000_000_000_000_000int,
        ;
    }
    let c6: u128 = c3 * c3;
    let f: u128 = (97 * c6) / FRESNEL_DIV;
    proof {
        lemma_div_is_ordered(
            97 * (c6 as int),
            97_000_000_000_000_000_000_000_000_000_000_000_000int,
            FRESNEL_DIV as int,
        );
        assert(97_000_000_000_000_000_000_000_000_000_000_000_000int / (FRESNEL_DIV as int)
            == 970_000int);
    }
    f as u32
}

/// One colour channel scaled by a weight in parts per million, rounded
/// down; never larger than the input channel.
pub open spec fn spec_scale_channel(c: u32, f: u32) -> int {
    (c * f) / 1_000_000
}

/// Scale a channel by a weight in millionths.
pub fn scale_channel(c: u32, f: u32) -> (r: u32)
    requires
        f <= 1_000_000,
    ensures
        r == spec_scale_channel(c, f),
        r <= c,
{
    proof {
        assert(c * f <= c * 1_000_000) by (nonlinear_arith)
            requires
                f <= 1_000_000,
                c >= 0,
        ;
    }
    let v: u64 = (c as u64 * f as u64) / 1_000_000;
    proof {
        lemma_div_is_ordered(c as int * f as int, c as int * 1_000_000, 1_000_000);
        lemma_div_multiples_vanish(c as int, 1_000_000);
        assert(c as int * 1_000_000 == 1_000_000 * (c as int)) by (nonlinear_arith);
    }
    v as u32
}

/// The transparent-surface energy split: the transmitted branch gets each
/// channel scaled by the weight `f` (rounded down), and the reflected
/// branch gets exactly the remainder, so the two add up to the input
/// exactly.
pub open spec fn spec_split_colors(c: Color, f: u32) -> (Color, Color) {
    let t = Color {
        r: spec_scale_channel(c.r, f) as u32,
        g: spec_scale_channel(c.g, f) as u32,
        b: spec_scale_channel(c.b, f) as u32,
        a: spec_scale_channel(c.a, f) as u32,
    };
    let refl = Color {
        r: (c.r - t.r) as u32,
        g: (c.g - t.g) as u32,
        b: (c.b - t.b) as u32,
        a: (c.a - t.a) as u32,
    };
    (refl, t)
}

/// Split a colour into (reflected, transmitted) parts by the transmission
/// weight `f` in millionths.
pub fn split_colors(c: Color, f: u32) -> (r: (Color, Color))
    requires
        f <= 1_000_000,
    ensures
        r == spec_split_colors(c, f),
{
    let tr: u32 = scale_channel(c.r, f);
    let tg: u32 = scale_channel(c.g, f);
    let tb: u32 = scale_channel(c.b, f);
    let ta: u32 = scale_channel(c.a, f);
    let t = Color { r: tr, g: tg, b: tb, a: ta };
    let refl = Color { r: c.r - tr, g: c.g - tg, b: c.b - tb, a: c.a - ta };
    (refl, t)
}

/// Splitting conserves energy exactly: on every channel, the reflected and
/// transmitted parts add up to the incoming colour.
pub proof fn lemma_split_conserves_energy(c: Color, f: u32)
    requires
        f <= 1_000_000,
    ensures
        ({
            let (refl, t) = spec_split_colors(c, f);
            &&& refl.r + t.r == c.r
            &&& refl.g + t.g == c.g
            &&& refl.b + t.b == c.b
            &&& refl.a + t.a == c.a
        }),
{
    lemma_scale_channel_le(c.r, f);
    lemma_scale_channel_le(c.g, f);
    lemma_scale_channel_le(c.b, f);
    lemma_scale_channel_le(c.a, f);
}

/// A scaled channel never exceeds the original channel.
proof fn lemma_scale_channel_le(c: u32, f: u32)
    requires
        f <= 1_000_000,
    ensures
        0 <= spec_scale_channel(c, f) <= c,
{
    assert(c * f >= 0 && c * f <= c * 1_000_000) by (nonlinear_arith)
        requires
            0 <= f <= 1_000_000,
            c >= 0,
    ;
    lemma_div_is_ordered(0, c as int * f as int, 1_000_000);
    lemma_div_is_ordered(c as int * f as int, c as int * 1_000_000, 1_000_000);
    lemma_div_multiples_vanish(c as int, 1_000_000);
    assert(c as int * 1_000_000 == 1_000_000 * (c as int)) by (nonlinear_arith);
}

/// Round an exact rational point to the nearest integer point (ties go up).
pub open spec fn spec_snap(p: RatPoint) -> (int, int)
    recommends
        p.den > 0,
{
    ((2 * p.xn + p.den) / (2 * p.den), (2 * p.yn + p.den) / (2 * p.den))
}

/// Rounding a rational value that lies between `lo` and `hi` (as fractions
/// over `den`) gives an integer between `lo` and `hi`.
pub proof fn lemma_snap_range(xn: int, den: int, lo: int, hi: int)
    requires
        den > 0,
        lo * den <= xn <= hi * den,
    ensures
        lo <= (2 * xn + den) / (2 * den) <= hi,
{
    assert((2 * lo + 1) * den <= 2 * xn + den <= (2 * hi + 1) * den) by (nonlinear_arith)
        requires
            lo * den <= xn <= hi * den,
            den > 0,
    ;
    lemma_div_is_ordered((2 * lo + 1) * den, 2 * xn + den, 2 * den);
    lemma_div_is_ordered(2 * xn + den, (2 * hi + 1) * den, 2 * den);
    assert((2 * lo + 1) * den == (2 * den) * lo + den) by (nonlinear_arith);
    assert((2 * hi + 1) * den == (2 * den) * hi + den) by (nonlinear_arith);
    lemma_fundamental_div_mod_converse((2 * lo + 1) * den, 2 * den, lo, den);
    lemma_fundamental_div_mod_converse((2 * hi + 1) * den, 2 * den, hi, den);
}

/// Round an exact rational point to the nearest integer point.
pub fn snap_point(p: RatPoint) -> (r: (i64, i64))
    requires
        p.den > 0,
        abs_i(p.xn as int) <= 0x4000_0000_0000_0000_0000_0000_0000,
        abs_i(p.yn as int) <= 0x4000_0000_0000_0000_0000_0000_0000,
        p.den <= 0x4000_0000_0000_0000_0000_0000_0000,
        -2_000_000 * p.den <= p.xn <= 2_000_000 * p.den,
        -2_000_000 * p.den <= p.yn <= 2_000_000 * p.den,
    ensures
        (r.0 as int, r.1 as int) == spec_snap(p),
        -2_000_000 <= r.0 <= 2_000_000,
        -2_000_000 <= r.1 <= 2_000_000,
{
    proof {
        lemma_snap_range(p.xn as int, p.den as int, -2_000_000, 2_000_000);
        lemma_snap_range(p.yn as int, p.den as int, -2_000_000, 2_000_000);
    }
    let qx: i128 = div_floor_i128(2 * p.xn + p.den, 2 * p.den);
    let qy: i128 = div_floor_i128(2 * p.yn + p.den, 2 * p.den);
    (qx as i64, qy as i64)
}

/// The point a distance of (approximately, by integer quantization)
/// `max_dist` from `o` along `d`: each coordinate moves by
/// `max_dist * d / isqrt(|d|^2)`, which is exact whenever `|d|^2` is a
/// perfect square -- in particular for axis-aligned directions.
pub open spec fn spec_exit_point(o: Vec2i, d: Vec2i, max_dist: i64) -> Vec2i
    recommends
        origin_ok(o),
        dir_ok(d),
        0 <= max_dist <= 100_000,
{
    let s: int = isqrt(len2(d) as nat) as int;
    Vec2i {
        x: (o.x + (max_dist * d.x) / s) as i64,
        y: (o.y + (max_dist * d.y) / s) as i64,
    }
}

/// A component of a vector is bounded by the integer square root of the
/// squared length.
proof fn lemma_component_le_isqrt(d: Vec2i, s: int)
    requires
        s >= 0,
        s * s <= len2(d) < (s + 1) * (s + 1),
    ensures
        -s <= d.x <= s,
        -s <= d.y <= s,
{
    assert(-s <= d.x <= s && -s <= d.y <= s) by (nonlinear_arith)
        requires
            d.x * d.x + d.y * d.y < (s + 1) * (s + 1),
            s >= 0,
    ;
}

/// Quantized travel along a direction moves each coordinate by at most the
/// distance.
proof fn lemma_exit_offset_range(m: int, c: int, s: int)
    requires
        0 <= m,
        s >= 1,
        -s <= c <= s,
    ensures
        -m <= (m * c) / s <= m,
{
    assert(s * (-m) <= m * c <= s * m) by (nonlinear_arith)
        requires
            0 <= m,
            -s <= c <= s,
    ;
    lemma_div_is_ordered(s * (-m), m * c, s);
    lemma_div_is_ordered(m * c, s * m, s);
    lemma_div_multiples_vanish(-m, s);
    lemma_div_multiples_vanish(m, s);
}

/// The scene-exit endpoint of a ray that hits nothing, executable.
pub fn exit_point(o: Vec2i, d: Vec2i, max_dist: i64) -> (r: Vec2i)
    requires
        origin_ok(o),
        dir_ok(d),
        0 <= max_dist <= 100_000,
    ensures
        r == spec_exit_point(o, d, max_dist),
{
    proof {
        crate::geom::lemma_mul_range(d.x as int, d.x as int, crate::geom::DIR_BOUND as int,
            crate::geom::DIR_BOUND as int);
        crate::geom::lemma_mul_range(d.y as int, d.y as int, crate::geom::DIR_BOUND as int,
            crate::geom::DIR_BOUND as int);
        lemma_len2_pos(d);
    }
    let d2: i128 = d.x as i128 * d.x as i128 + d.y as i128 * d.y as i128;
    let s: u128 = isqrt_u128(d2 as u128);
    proof {
        lemma_isqrt_bounds(d2 as nat, 0x1000_0000_0000_0000);
        lemma_component_le_isqrt(d, s as int);
        lemma_exit_offset_range(max_dist as int, d.x as int, s as int);
        lemma_exit_offset_range(max_dist as int, d.y as int, s as int);
        crate::geom::lemma_mul_range(max_dist as int, d.x as int, 100_000, crate::geom::DIR_BOUND
            as int);
        crate::geom::lemma_mul_range(max_dist as int, d.y as int, 100_000, crate::geom::DIR_BOUND
            as int);
    }
    let qx: i128 = div_floor_i128(max_dist as i128 * d.x as i128, s as i128);
    let qy: i128 = div_floor_i128(max_dist as i128 * d.y as i128, s as i128);
    Vec2i { x: o.x + qx as i64, y: o.y + qy as i64 }
}

/// A ray the solver can propagate: origin and direction within the exact
/// range.
pub open spec fn ray_valid(r: Ray) -> bool {
    origin_ok(r.origin) && dir_ok(r.direction)
}

/// Every queued ray is propagatable.
pub open spec fn queue_valid(q: Seq<(Ray, Option<Segment>)>) -> bool {
    forall|i: int| 0 <= i < q.len() ==> ray_valid(#[trigger] q[i].0)
}

/// Every segment of the scene is within the coordinate bounds.
pub open spec fn scene_ok(s: Seq<Segment>) -> bool {
    forall|i: int| 0 <= i < s.len() ==> coord_ok(#[trigger] s[i].0) && coord_ok(s[i].1)
}

/// `h1` hits strictly nearer along the ray than `h2`: the hit parameters
/// `t_num / t_den` are compared by cross multiplication (denominators are
/// positive).  For one ray this order agrees with the squared distance of
/// the hit points from the ray origin.
pub open spec fn hit_closer(h1: HitParts, h2: HitParts) -> bool {
    h1.t_num * h2.t_den < h2.t_num * h1.t_den
}

/// The hit lies strictly nearer than the maximum travel distance: the
/// squared distance of the hit from the ray origin is `t^2 |d|^2`, so with
/// `t = t_num / t_den` the comparison against `max_dist^2`, cleared of its
/// (positive) denominators, is exact.  A hit at or beyond the maximum does
/// not count: the ray is treated as leaving the scene.
pub open spec fn hit_within(h: HitParts, d: Vec2i, max_dist: i64) -> bool {
    h.t_num * h.t_num * len2(d) < (max_dist * max_dist) * (h.t_den * h.t_den)
}

/// The maximum-travel-distance test, executable.  The products exceed 128
/// bits, so they are compared exactly by split-product comparison.
fn hit_within_range(d: Vec2i, h: HitParts, max_dist: i64) -> (r: bool)
    requires
        dir_ok(d),
        0 <= max_dist <= 100_000,
        0 <= h.t_num < 0x1000_0000_0000,
        0 < h.t_den <= 0x3_0000_0000_0000_0000_0000,
    ensures
        r == hit_within(h, d, max_dist),
{
    proof {
        crate::geom::lemma_mul_range(d.x as int, d.x as int, crate::geom::DIR_BOUND as int,
            crate::geom::DIR_BOUND as int);
        crate::geom::lemma_mul_range(d.y as int, d.y as int, crate::geom::DIR_BOUND as int,
            crate::geom::DIR_BOUND as int);
        lemma_len2_pos(d);
        crate::geom::lemma_mul_range(h.t_num as int, h.t_num as int, 0x1000_0000_0000,
            0x1000_0000_0000);
        crate::geom::lemma_mul_range(max_dist as int, h.t_den as int, 100_000,
            0x3_0000_0000_0000_0000_0000);
    }
    let q: i128 = d.x as i128 * d.x as i128 + d.y as i128 * d.y as i128;
    let tn2: u128 = h.t_num as u128 * h.t_num as u128;
    let mtd: u128 = max_dist as u128 * h.t_den as u128;
    let r: bool = crate::num::prod_lt(tn2, q as u128, mtd, mtd);
    proof {
        assert((max_dist as int * h.t_den as int) * (max_dist as int * h.t_den as int) == (max_dist
            as int * max_dist as int) * (h.t_den as int * h.t_den as int)) by (nonlinear_arith);
    }
    r
}

/// The nearest hit among the segments from `i` on, given the best hit found
/// among the segments before `i`.  Segments equal (by value) to the segment
/// the ray departed from are skipped, so a ray never immediately
/// re-intersects its own surface; a hit at or beyond the maximum travel
/// distance does not count; a later hit replaces the best one only when it
/// is strictly closer, so among equally near segments the first wins.
pub open spec fn closest_from(
    ray: Ray,
    segments: Seq<Segment>,
    skip: Option<Segment>,
    max_dist: i64,
    i: int,
    best: Option<(HitParts, Segment)>,
) -> Option<(HitParts, Segment)>
    decreases segments.len() - i,
{
    if i < 0 || i >= segments.len() {
        best
    } else {
        let s = segments[i];
        let next: Option<(HitParts, Segment)> = if skip == Some(s) {
            best
        } else {
            match spec_intersect(ray.origin, ray.direction, s.0, s.1) {
                None => best,
                Some(h) => if !hit_within(h, ray.direction, max_dist) {
                    best
                } else {
                    match best {
                        None => Some((h, s)),
                        Some((bh, bs)) => if hit_closer(h, bh) {
                            Some((h, s))
                        } else {
                            best
                        },
                    }
                },
            }
        };
        closest_from(ray, segments, skip, max_dist, i + 1, next)
    }
}

/// The nearest segment hit by a ray within the maximum travel distance,
/// excluding the segment it departed from.
pub open spec fn spec_find_closest(
    ray: Ray,
    segments: Seq<Segment>,
    skip: Option<Segment>,
    max_dist: i64,
) -> Option<(HitParts, Segment)> {
    closest_from(ray, segments, skip, max_dist, 0, None)
}

/// Find the closest segment hit by the ray within the maximum travel
/// distance, executable.
fn find_closest_segment_new(
    ray: Ray,
    segments: &[Segment],
    ray_origin_segment: Option<Segment>,
    max_dist: i64,
) -> (r: Option<(HitParts, Segment)>)
    requires
        scene_ok(segments@),
        0 <= max_dist <= 100_000,
    ensures
        r == spec_find_closest(ray, segments@, ray_origin_segment, max_dist),
        r matches Some((h, s)) ==> spec_intersect(ray.origin, ray.direction, s.0, s.1) == Some(h)
            && coord_ok(s.0) && coord_ok(s.1),
{
    let mut best: Option<(HitParts, Segment)> = None;
    let n: usize = segments.len();
    let mut i: usize = 0;
    while i < n
        invariant
            n == segments@.len(),
            0 <= i <= n,
            scene_ok(segments@),
            0 <= max_dist <= 100_000,
            spec_find_closest(ray, segments@, ray_origin_segment, max_dist) == closest_from(
                ray,
                segments@,
                ray_origin_segment,
                max_dist,
                i as int,
                best,
            ),
            best matches Some((h, s)) ==> spec_intersect(ray.origin, ray.direction, s.0, s.1)
                == Some(h) && coord_ok(s.0) && coord_ok(s.1),
        decreases n - i,
    {
        let segment: Segment = segments[i];
        let skip_this: bool = match ray_origin_segment {
            Some(orig) => segment == orig,
            None => false,
        };
        if !skip_this {
            match crate::geom::intersect_parts(ray.origin, ray.direction, segment.0, segment.1) {
                Some(h) => {
                    proof {
                        crate::geom::lemma_intersect_props(ray.origin, ray.direction, segment.0,
                            segment.1);
                        assert(crate::geom::intersect_inputs_ok(ray.origin, ray.direction,
                            segment.0, segment.1));
                    }
                    let within: bool = hit_within_range(ray.direction, h, max_dist);
                    if within {
                        match best {
                            Some((bh, bs)) => {
                                proof {
                                    crate::geom::lemma_intersect_props(ray.origin, ray.direction,
                                        bs.0, bs.1);
                                    crate::geom::lemma_mul_range(h.t_num as int, bh.t_den as int,
                                        0x1000_0000_0000, 0x3_0000_0000_0000_0000_0000);
                                    crate::geom::lemma_mul_range(bh.t_num as int, h.t_den as int,
                                        0x1000_0000_0000, 0x3_0000_0000_0000_0000_0000);
                                }
                                if h.t_num * bh.t_den < bh.t_num * h.t_den {
                                    best = Some((h, segment));
                                }
                            },
                            None => {
                                best = Some((h, segment));
                            },
                        }
                    }
                },
                None => {},
            }
        }
        i = i + 1;
    }
    best
}

/// The nearer-or-equal order on hits is transitive: comparison is by cross
/// multiplication with positive denominators.
proof fn lemma_closer_le_trans(
    tn1: int,
    td1: int,
    tn2: int,
    td2: int,
    tn3: int,
    td3: int,
)
    by (nonlinear_arith)
    requires
        td1 > 0,
        td2 > 0,
        td3 > 0,
        tn1 * td2 <= tn2 * td1,
        tn2 * td3 <= tn3 * td2,
    ensures
        tn1 * td3 <= tn3 * td1,
{
}

/// The nearest-hit fold really returns a nearest hit: its result is at
/// least as near as the best hit brought in, and at least as near as the
/// hit of every remaining non-skipped segment; in particular the fold
/// returns a hit whenever any such segment is hit at all.
proof fn lemma_closest_from_minimal(
    ray: Ray,
    segments: Seq<Segment>,
    skip: Option<Segment>,
    max_dist: i64,
    i: int,
    best: Option<(HitParts, Segment)>,
)
    requires
        0 <= i <= segments.len(),
        best matches Some((bh, bs)) ==> spec_intersect(ray.origin, ray.direction, bs.0, bs.1)
            == Some(bh),
    ensures
        ({
            let r = closest_from(ray, segments, skip, max_dist, i, best);
            &&& (r matches Some((rh, rs)) ==> spec_intersect(ray.origin, ray.direction, rs.0, rs.1)
                == Some(rh))
            &&& (best is Some ==> r is Some && !hit_closer(best->Some_0.0, r->Some_0.0))
            &&& forall|j: int|
                i <= j < segments.len() && skip != Some(#[trigger] segments[j]) && spec_intersect(
                    ray.origin,
                    ray.direction,
                    segments[j].0,
                    segments[j].1,
                ) is Some && hit_within(
                    spec_intersect(ray.origin, ray.direction, segments[j].0, segments[j].1)
                        ->Some_0,
                    ray.direction,
                    max_dist,
                ) ==> r is Some && !hit_closer(
                    spec_intersect(ray.origin, ray.direction, segments[j].0, segments[j].1)
                        ->Some_0,
                    r->Some_0.0,
                )
        }),
    decreases segments.len() - i,
{
    let r = closest_from(ray, segments, skip, max_dist, i, best);
    if i == segments.len() {
        if best is Some {
            let bh = best->Some_0.0;
            assert(!hit_closer(bh, bh));
        }
    } else {
        let s = segments[i];
        let next: Option<(HitParts, Segment)> = if skip == Some(s) {
            best
        } else {
            match spec_intersect(ray.origin, ray.direction, s.0, s.1) {
                None => best,
                Some(h) => if !hit_within(h, ray.direction, max_dist) {
                    best
                } else {
                    match best {
                        None => Some((h, s)),
                        Some((bh, bs)) => if hit_closer(h, bh) {
                            Some((h, s))
                        } else {
                            best
                        },
                    }
                },
            }
        };
        lemma_closest_from_minimal(ray, segments, skip, max_dist, i + 1, next);
        let rr = closest_from(ray, segments, skip, max_dist, i + 1, next);
        assert(r == rr);
        // Order facts: everything the step compared has a positive
        // denominator, because each hit came out of an intersection.
        if next is Some {
            let nh = next->Some_0.0;
            let ns = next->Some_0.1;
            crate::geom::lemma_intersect_props(ray.origin, ray.direction, ns.0, ns.1);
            let rh = rr->Some_0.0;
            let rs = rr->Some_0.1;
            crate::geom::lemma_intersect_props(ray.origin, ray.direction, rs.0, rs.1);
            if best is Some {
                let bh = best->Some_0.0;
                let bs = best->Some_0.1;
                crate::geom::lemma_intersect_props(ray.origin, ray.direction, bs.0, bs.1);
                // the step never moves to a strictly farther hit
                assert(!hit_closer(bh, nh));
                lemma_closer_le_trans(
                    rh.t_num as int,
                    rh.t_den as int,
                    nh.t_num as int,
                    nh.t_den as int,
                    bh.t_num as int,
                    bh.t_den as int,
                );
            }
            if skip != Some(s) && spec_intersect(ray.origin, ray.direction, s.0, s.1) is Some
                && hit_within(
                spec_intersect(ray.origin, ray.direction, s.0, s.1)->Some_0,
                ray.direction,
                max_dist,
            ) {
                let h = spec_intersect(ray.origin, ray.direction, s.0, s.1)->Some_0;
                crate::geom::lemma_intersect_props(ray.origin, ray.direction, s.0, s.1);
                assert(!hit_closer(h, nh));
                lemma_closer_le_trans(
                    rh.t_num as int,
                    rh.t_den as int,
                    nh.t_num as int,
                    nh.t_den as int,
                    h.t_num as int,
                    h.t_den as int,
                );
            }
        }
    }
}

/// The search for the nearest segment finds it: whenever some non-excluded
/// segment is hit within the maximum travel distance, a hit is returned,
/// and no such segment's hit is strictly nearer along the ray than the
/// returned one.
pub proof fn lemma_find_closest_is_nearest(
    ray: Ray,
    segments: Seq<Segment>,
    skip: Option<Segment>,
    max_dist: i64,
)
    ensures
        ({
            let r = spec_find_closest(ray, segments, skip, max_dist);
            forall|j: int|
                0 <= j < segments.len() && skip != Some(#[trigger] segments[j]) && spec_intersect(
                    ray.origin,
                    ray.direction,
                    segments[j].0,
                    segments[j].1,
                ) is Some && hit_within(
                    spec_intersect(ray.origin, ray.direction, segments[j].0, segments[j].1)
                        ->Some_0,
                    ray.direction,
                    max_dist,
                ) ==> r is Some && !hit_closer(
                    spec_intersect(ray.origin, ray.direction, segments[j].0, segments[j].1)
                        ->Some_0,
                    r->Some_0.0,
                )
        }),
{
    lemma_closest_from_minimal(ray, segments, skip, max_dist, 0, None);
}

/// The children a hit spawns, in the order they join the work queue: an
/// absorptive segment ends the branch; a reflective one spawns the mirrored
/// ray with the same colour; a transparent one spawns the mirrored ray with
/// the reflected share of the colour and, away from the critical angle, a
/// transmitted ray that keeps the incoming direction and carries exactly
/// the remaining share.  At the critical angle the reflected ray keeps the
/// full colour and nothing is transmitted.  A branch whose reflected
/// direction cannot be represented exactly also ends.
pub open spec fn spec_children(ray: Ray, h: HitParts, seg: Segment) -> Seq<(Ray, Option<Segment>)> {
    let org = Vec2i { x: spec_snap(h.pos).0 as i64, y: spec_snap(h.pos).1 as i64 };
    match seg.2 {
        EdgeState::Absorptive => Seq::empty(),
        EdgeState::Reflective => match spec_reflect(ray.direction, h.normal) {
            Some(rd) => seq![(Ray { origin: org, direction: rd, color: ray.color }, Some(seg))],
            None => Seq::empty(),
        },
        EdgeState::Transparent => {
            let crit = spec_cos_ppm(ray.direction, h.normal) == CRITICAL_COS_PPM;
            let f = spec_fresnel_ppm(ray.direction, h.normal) as u32;
            let parts = spec_split_colors(ray.color, f);
            let refl_color = if crit {
                ray.color
            } else {
                parts.0
            };
            let refl: Seq<(Ray, Option<Segment>)> = match spec_reflect(ray.direction, h.normal) {
                Some(rd) => seq![
                    (Ray { origin: org, direction: rd, color: refl_color }, Some(seg)),
                ],
                None => Seq::empty(),
            };
            if crit {
                refl
            } else {
                refl + seq![
                    (Ray { origin: org, direction: ray.direction, color: parts.1 }, Some(seg)),
                ]
            }
        },
    }
}

/// What the propagation loop emits: pop rays in first-in first-out order;
/// drop a ray whose energy is exhausted; otherwise emit one drawable
/// segment -- to the nearest hit within the maximum travel distance, or to
/// the scene-exit point when nothing is hit nearer than that distance --
/// and enqueue the hit's children; stop when the queue is empty or the
/// emission budget is spent.
pub open spec fn spec_solve(
    queue: Seq<(Ray, Option<Segment>)>,
    segments: Seq<Segment>,
    budget: nat,
    max_dist: i64,
) -> Seq<(Vec2i, Vec2i, Color)>
    decreases budget, queue.len(),
{
    if budget == 0 || queue.len() == 0 {
        Seq::empty()
    } else {
        let ray = queue[0].0;
        let skip = queue[0].1;
        let rest = queue.drop_first();
        if ray.color.a <= ENERGY_MIN {
            spec_solve(rest, segments, budget, max_dist)
        } else {
            match spec_find_closest(ray, segments, skip, max_dist) {
                Some((h, seg)) => seq![
                    (
                        ray.origin,
                        Vec2i { x: spec_snap(h.pos).0 as i64, y: spec_snap(h.pos).1 as i64 },
                        ray.color,
                    ),
                ] + spec_solve(
                    rest + spec_children(ray, h, seg),
                    segments,
                    (budget - 1) as nat,
                    max_dist,
                ),
                None => seq![
                    (ray.origin, spec_exit_point(ray.origin, ray.direction, max_dist), ray.color),
                ] + spec_solve(rest, segments, (budget - 1) as nat, max_dist),
            }
        }
    }
}

impl Ray {
    /// Intersect this ray with the segment between the two given points.
    /// On a hit, returns the exact hit position and the (reduced) surface
    /// normal there.
    pub fn collides_with(&self, other: (Vec2i, Vec2i)) -> (r: Option<(RatPoint, Vec2i)>)
        ensures
            r == match spec_intersect(self.origin, self.direction, other.0, other.1) {
                Some(h) => Some((h.pos, h.normal)),
                None => None::<(RatPoint, Vec2i)>,
            },
    {
        match crate::geom::intersect_parts(self.origin, self.direction, other.0, other.1) {
            Some(h) => Some((h.pos, h.normal)),
            None => None,
        }
    }
}

/// A single absorptive segment in front of the ray terminates the branch:
/// the solve emits exactly one drawable segment, from the ray origin to the
/// (rounded) hit point, and nothing more -- whatever the emission budget.
pub proof fn lemma_absorptive_terminates(
    ray: Ray,
    segments: Seq<Segment>,
    budget: nat,
    max_dist: i64,
)
    requires
        budget >= 1,
        ray.color.a > ENERGY_MIN,
        spec_find_closest(ray, segments, None, max_dist) is Some,
        spec_find_closest(ray, segments, None, max_dist)->Some_0.1.2 == EdgeState::Absorptive,
    ensures
        ({
            let h = spec_find_closest(ray, segments, None, max_dist)->Some_0.0;
            spec_solve(seq![(ray, None)], segments, budget, max_dist) =~= seq![
                (
                    ray.origin,
                    Vec2i { x: spec_snap(h.pos).0 as i64, y: spec_snap(h.pos).1 as i64 },
                    ray.color,
                ),
            ]
        }),
{
    let q: Seq<(Ray, Option<Segment>)> = seq![(ray, None)];
    let h = spec_find_closest(ray, segments, None, max_dist)->Some_0.0;
    let seg = spec_find_closest(ray, segments, None, max_dist)->Some_0.1;
    assert(spec_children(ray, h, seg) == Seq::<(Ray, Option<Segment>)>::empty());
    assert(q.drop_first() + spec_children(ray, h, seg) =~= Seq::<(Ray, Option<Segment>)>::empty());
    assert(spec_solve(Seq::<(Ray, Option<Segment>)>::empty(), segments, (budget - 1) as nat,
        max_dist) =~= Seq::<(Vec2i, Vec2i, Color)>::empty());
}

/// On an empty scene the solve emits exactly one drawable segment, from the
/// ray origin to the scene-exit point along the ray's direction.
pub proof fn lemma_empty_scene_exits(ray: Ray, budget: nat, max_dist: i64)
    requires
        budget >= 1,
        ray.color.a > ENERGY_MIN,
    ensures
        spec_solve(seq![(ray, None)], Seq::<Segment>::empty(), budget, max_dist) =~= seq![
            (ray.origin, spec_exit_point(ray.origin, ray.direction, max_dist), ray.color),
        ],
{
    let q: Seq<(Ray, Option<Segment>)> = seq![(ray, None)];
    assert(spec_find_closest(ray, Seq::<Segment>::empty(), None, max_dist) is None);
    assert(spec_solve(q.drop_first(), Seq::<Segment>::empty(), (budget - 1) as nat, max_dist)
        =~= Seq::<(Vec2i, Vec2i, Color)>::empty());
}

/// A transparent hit away from the critical angle spawns exactly two
/// continuations -- the reflected and the transmitted ray -- whose colours
/// add up, channel by channel, to the colour of the incoming ray: the split
/// conserves energy exactly.
pub proof fn lemma_transparent_split(ray: Ray, h: HitParts, seg: Segment)
    requires
        seg.2 == EdgeState::Transparent,
        spec_cos_ppm(ray.direction, h.normal) != CRITICAL_COS_PPM,
        spec_reflect(ray.direction, h.normal) is Some,
    ensures
        spec_children(ray, h, seg).len() == 2,
        ({
            let refl = spec_children(ray, h, seg)[0].0;
            let trans = spec_children(ray, h, seg)[1].0;
            &&& refl.color.r + trans.color.r == ray.color.r
            &&& refl.color.g + trans.color.g == ray.color.g
            &&& refl.color.b + trans.color.b == ray.color.b
            &&& refl.color.a + trans.color.a == ray.color.a
            &&& refl.direction == spec_reflect(ray.direction, h.normal)->Some_0
            &&& trans.direction == ray.direction
        }),
{
    let f = spec_fresnel_ppm(ray.direction, h.normal);
    assert(dir_ok(ray.direction) && normal_ok(h.normal));
    lemma_fresnel_le_full(ray.direction, h.normal);
    lemma_split_conserves_energy(ray.color, f as u32);
}

/// The transmission weight never exceeds full intensity.
pub proof fn lemma_fresnel_le_full(d: Vec2i, n: Vec2i)
    requires
        dir_ok(d),
        normal_ok(n),
    ensures
        0 <= spec_fresnel_ppm(d, n) <= 970_000,
{
    let c = spec_cos_ppm(d, n);
    lemma_cos_ppm_range(d, n);
    assert(0 <= c * c * c <= 1_000_000_000_000_000_000int) by (nonlinear_arith)
        requires
            0 <= c <= 1_000_000,
    ;
    let c3 = c * c * c;
    assert(0 <= c3 * c3 <= 1_000_000_000_000_000_000_000_000_000_000_000_000int)
        by (nonlinear_arith)
        requires
            0 <= c3 <= 1_000_000_000_000_000_000int,
    ;
    lemma_div_is_ordered(0, 97 * (c3 * c3), FRESNEL_DIV as int);
    lemma_div_is_ordered(
        97 * (c3 * c3),
        97_000_000_000_000_000_000_000_000_000_000_000_000int,
        FRESNEL_DIV as int,
    );
    assert(97_000_000_000_000_000_000_000_000_000_000_000_000int / (FRESNEL_DIV as int)
        == 970_000int);
    assert(0int / (FRESNEL_DIV as int) == 0int);
}

/// The quantized cosine is between zero and one.
pub proof fn lemma_cos_ppm_range(d: Vec2i, n: Vec2i)
    requires
        dir_ok(d),
        normal_ok(n),
    ensures
        0 <= spec_cos_ppm(d, n) <= 1_000_000,
{
    lemma_len2_pos(d);
    lemma_len2_pos(n);
    crate::geom::lemma_mul_range(d.x as int, d.x as int, crate::geom::DIR_BOUND as int,
        crate::geom::DIR_BOUND as int);
    crate::geom::lemma_mul_range(d.y as int, d.y as int, crate::geom::DIR_BOUND as int,
        crate::geom::DIR_BOUND as int);
    crate::geom::lemma_mul_range(n.x as int, n.x as int, crate::geom::NORMAL_BOUND as int,
        crate::geom::NORMAL_BOUND as int);
    crate::geom::lemma_mul_range(n.y as int, n.y as int, crate::geom::NORMAL_BOUND as int,
        crate::geom::NORMAL_BOUND as int);
    crate::num::lemma_isqrt_exists(len2(d) as nat);
    crate::num::lemma_isqrt_exists(len2(n) as nat);
    lemma_isqrt_bounds(len2(d) as nat, 0x1000_0000_0000_0000);
    lemma_isqrt_bounds(len2(n) as nat, 3_000_000);
    let dn: int = dot(d.x as int, d.y as int, n.x as int, n.y as int);
    let sd: int = isqrt(len2(d) as nat) as int;
    let sn: int = isqrt(len2(n) as nat) as int;
    assert(sd * sn >= 1) by (nonlinear_arith)
        requires
            sd >= 1,
            sn >= 1,
    ;
    lemma_div_is_ordered(0, abs_i(dn) as int * 1_000_000, sd * sn);
}

/// Both continuations of a transparent split are drawn, not merely
/// enqueued: on a single transparent pane away from the critical angle,
/// with both split colours above the exhaustion threshold, the solve emits
/// exactly three drawable segments -- the incoming ray to the hit, then the
/// reflected and the transmitted continuations, each leaving the scene with
/// its exact share of the colour.
pub proof fn lemma_transparent_continuations_drawn(
    ray: Ray,
    seg: Segment,
    budget: nat,
    max_dist: i64,
)
    requires
        budget >= 3,
        ray.color.a > ENERGY_MIN,
        seg.2 == EdgeState::Transparent,
        spec_find_closest(ray, seq![seg], None, max_dist) is Some,
        ({
            let h = spec_find_closest(ray, seq![seg], None, max_dist)->Some_0.0;
            let f = spec_fresnel_ppm(ray.direction, h.normal) as u32;
            &&& spec_cos_ppm(ray.direction, h.normal) != CRITICAL_COS_PPM
            &&& spec_reflect(ray.direction, h.normal) is Some
            &&& spec_split_colors(ray.color, f).0.a > ENERGY_MIN
            &&& spec_split_colors(ray.color, f).1.a > ENERGY_MIN
        }),
    ensures
        ({
            let h = spec_find_closest(ray, seq![seg], None, max_dist)->Some_0.0;
            let org = Vec2i { x: spec_snap(h.pos).0 as i64, y: spec_snap(h.pos).1 as i64 };
            let f = spec_fresnel_ppm(ray.direction, h.normal) as u32;
            let parts = spec_split_colors(ray.color, f);
            let rd = spec_reflect(ray.direction, h.normal)->Some_0;
            spec_solve(seq![(ray, None)], seq![seg], budget, max_dist) =~= seq![
                (ray.origin, org, ray.color),
                (org, spec_exit_point(org, rd, max_dist), parts.0),
                (org, spec_exit_point(org, ray.direction, max_dist), parts.1),
            ]
        }),
{
    let scene: Seq<Segment> = seq![seg];
    let fc = spec_find_closest(ray, scene, None, max_dist);
    let h = fc->Some_0.0;
    assert(scene[0] == seg);
    if spec_intersect(ray.origin, ray.direction, seg.0, seg.1) is Some && hit_within(
        spec_intersect(ray.origin, ray.direction, seg.0, seg.1)->Some_0,
        ray.direction,
        max_dist,
    ) {
        let h0 = spec_intersect(ray.origin, ray.direction, seg.0, seg.1)->Some_0;
        assert(closest_from(ray, scene, None, max_dist, 1, Some((h0, seg))) == Some((h0, seg)));
        assert(fc == Some((h0, seg)));
    } else {
        assert(closest_from(ray, scene, None, max_dist, 1, None::<(HitParts, Segment)>) is None);
        assert(fc is None);
    }
    assert(fc->Some_0.1 == seg);
    let org = Vec2i { x: spec_snap(h.pos).0 as i64, y: spec_snap(h.pos).1 as i64 };
    let f = spec_fresnel_ppm(ray.direction, h.normal) as u32;
    let parts = spec_split_colors(ray.color, f);
    let rd = spec_reflect(ray.direction, h.normal)->Some_0;
    let refl_ray = Ray { origin: org, direction: rd, color: parts.0 };
    let trans_ray = Ray { origin: org, direction: ray.direction, color: parts.1 };
    let children = spec_children(ray, h, seg);
    assert(children =~= seq![(refl_ray, Some(seg)), (trans_ray, Some(seg))]);
    // each continuation excludes the pane it departs from, and the pane is
    // the whole scene, so neither hits anything
    assert(closest_from(refl_ray, scene, Some(seg), max_dist, 1, None) is None);
    assert(closest_from(refl_ray, scene, Some(seg), max_dist, 0, None) is None);
    assert(closest_from(trans_ray, scene, Some(seg), max_dist, 1, None) is None);
    assert(closest_from(trans_ray, scene, Some(seg), max_dist, 0, None) is None);
    // unfold the three pops
    let q0: Seq<(Ray, Option<Segment>)> = seq![(ray, None)];
    assert(q0.drop_first() + children =~= children);
    let q1: Seq<(Ray, Option<Segment>)> = children;
    assert(q1.drop_first() =~= seq![(trans_ray, Some(seg))]);
    let q2: Seq<(Ray, Option<Segment>)> = seq![(trans_ray, Some(seg))];
    assert(q2.drop_first() =~= Seq::<(Ray, Option<Segment>)>::empty());
    assert(spec_solve(Seq::<(Ray, Option<Segment>)>::empty(), scene, (budget - 3) as nat, max_dist)
        =~= Seq::<(Vec2i, Vec2i, Color)>::empty());
    assert(spec_solve(q2, scene, (budget - 2) as nat, max_dist) =~= seq![
        (org, spec_exit_point(org, ray.direction, max_dist), parts.1),
    ]);
    assert(spec_solve(q1, scene, (budget - 1) as nat, max_dist) =~= seq![
        (org, spec_exit_point(org, rd, max_dist), parts.0),
        (org, spec_exit_point(org, ray.direction, max_dist), parts.1),
    ]);
}

/// The solve never emits more drawable segments than its budget, whatever
/// the scene -- even one that reflects forever, such as two facing mirrors.
pub proof fn lemma_solve_respects_budget(
    queue: Seq<(Ray, Option<Segment>)>,
    segments: Seq<Segment>,
    budget: nat,
    max_dist: i64,
)
    ensures
        spec_solve(queue, segments, budget, max_dist).len() <= budget,
    decreases budget, queue.len(),
{
    if budget == 0 || queue.len() == 0 {
    } else {
        let ray = queue[0].0;
        let skip = queue[0].1;
        let rest = queue.drop_first();
        if ray.color.a <= ENERGY_MIN {
            lemma_solve_respects_budget(rest, segments, budget, max_dist);
        } else {
            match spec_find_closest(ray, segments, skip, max_dist) {
                Some((h, seg)) => {
                    lemma_solve_respects_budget(
                        rest + spec_children(ray, h, seg),
                        segments,
                        (budget - 1) as nat,
                        max_dist,
                    );
                },
                None => {
                    lemma_solve_respects_budget(rest, segments, (budget - 1) as nat, max_dist);
                },
            }
        }
    }
}

/// A quotient of values in a symmetric range stays in that range.
proof fn lemma_div_bounded(n: int, d: int, b: int)
    requires
        d >= 1,
        -(b * d) <= n <= b * d,
        b >= 0,
    ensures
        -b <= n / d <= b,
{
    lemma_div_is_ordered(-(b * d), n, d);
    lemma_div_is_ordered(n, b * d, d);
    lemma_div_multiples_vanish(-b, d);
    lemma_div_multiples_vanish(b, d);
    assert(b * d == d * b && -(b * d) == d * (-b)) by (nonlinear_arith);
}

/// A quotient by a positive divisor of a value in a symmetric range stays
/// in that range.
proof fn lemma_div_bounded_abs(n: int, d: int, b: int)
    requires
        d >= 1,
        b >= 0,
        -b <= n <= b,
    ensures
        -b <= n / d <= b,
{
    assert(-(b * d) <= n <= b * d) by (nonlinear_arith)
        requires
            -b <= n <= b,
            d >= 1,
            b >= 0,
    ;
    lemma_div_bounded(n, d, b);
}

/// A vector scaled to (approximately) unit length in millionths: each
/// component times one million, divided by the integer square root of the
/// squared length.
pub open spec fn spec_unit_ppm(v: Vec2i) -> (int, int)
    recommends
        dir_ok(v),
{
    let s: int = isqrt(len2(v) as nat) as int;
    ((v.x * 1_000_000) / s, (v.y * 1_000_000) / s)
}

/// Scale a vector to unit length in millionths.
fn unit_ppm(v: Vec2i) -> (r: (i64, i64))
    requires
        dir_ok(v),
    ensures
        (r.0 as int, r.1 as int) == spec_unit_ppm(v),
        -1_000_000 <= r.0 <= 1_000_000,
        -1_000_000 <= r.1 <= 1_000_000,
{
    proof {
        crate::geom::lemma_mul_range(v.x as int, v.x as int, crate::geom::DIR_BOUND as int,
            crate::geom::DIR_BOUND as int);
        crate::geom::lemma_mul_range(v.y as int, v.y as int, crate::geom::DIR_BOUND as int,
            crate::geom::DIR_BOUND as int);
        lemma_len2_pos(v);
    }
    let v2: i128 = v.x as i128 * v.x as i128 + v.y as i128 * v.y as i128;
    let s: u128 = isqrt_u128(v2 as u128);
    proof {
        lemma_isqrt_bounds(v2 as nat, 0x1000_0000_0000_0000);
        lemma_component_le_isqrt(v, s as int);
        lemma_exit_offset_range(1_000_000, v.x as int, s as int);
        lemma_exit_offset_range(1_000_000, v.y as int, s as int);
        crate::geom::lemma_mul_range(1_000_000, v.x as int, 1_000_000, crate::geom::DIR_BOUND
            as int);
        crate::geom::lemma_mul_range(1_000_000, v.y as int, 1_000_000, crate::geom::DIR_BOUND
            as int);
    }
    let ux: i128 = div_floor_i128(1_000_000 * v.x as i128, s as i128);
    let uy: i128 = div_floor_i128(1_000_000 * v.y as i128, s as i128);
    proof {
        assert(v.x as int * 1_000_000 == 1_000_000 * (v.x as int)) by (nonlinear_arith);
        assert(v.y as int * 1_000_000 == 1_000_000 * (v.y as int)) by (nonlinear_arith);
    }
    (ux as i64, uy as i64)
}

/// What Snell's-law refraction returns, over unit vectors quantized to
/// millionths: nothing on total internal reflection (negative discriminant
/// `1 - eta^2 (1 - (d . n)^2)`), else the bent direction
/// `eta d - (eta (d . n) + sqrt(k)) n`, in millionths.
pub open spec fn spec_refract(d: Vec2i, n: Vec2i, eta_ppm: u32) -> Option<Vec2i> {
    let du = spec_unit_ppm(d);
    let nu = spec_unit_ppm(n);
    let dotn: int = (du.0 * nu.0 + du.1 * nu.1) / 1_000_000;
    let e: int = eta_ppm as int;
    let k: int = 1_000_000_000_000 - (e * e * (1_000_000_000_000 - dotn * dotn)) / (
    1_000_000_000_000int);
    if k < 0 {
        None
    } else {
        let s: int = isqrt(k as nat) as int;
        let coef: int = (e * dotn) / 1_000_000 + s;
        let ox: int = (e * du.0 - coef * nu.0) / 1_000_000;
        let oy: int = (e * du.1 - coef * nu.1) / 1_000_000;
        Some(Vec2i { x: ox as i64, y: oy as i64 })
    }
}

/// Snell's-law refraction, executable.  The physical index ratio `eta` is
/// given in millionths (one million is a ratio of one).
pub fn refract(direction: Vec2i, normal: Vec2i, eta_ppm: u32) -> (r: Option<Vec2i>)
    requires
        dir_ok(direction),
        normal_ok(normal),
        eta_ppm <= 10_000_000,
    ensures
        r == spec_refract(direction, normal, eta_ppm),
{
    let du: (i64, i64) = unit_ppm(direction);
    let nu: (i64, i64) = unit_ppm(normal);
    proof {
        crate::geom::lemma_mul_range(du.0 as int, nu.0 as int, 1_000_000, 1_000_000);
        crate::geom::lemma_mul_range(du.1 as int, nu.1 as int, 1_000_000, 1_000_000);
    }
    let dotn: i128 = div_floor_i128(
        du.0 as i128 * nu.0 as i128 + du.1 as i128 * nu.1 as i128,
        1_000_000,
    );
    proof {
        lemma_div_bounded(du.0 as int * nu.0 as int + du.1 as int * nu.1 as int, 1_000_000,
            2_000_000);
    }
    let e: i128 = eta_ppm as i128;
    proof {
        crate::geom::lemma_mul_range(dotn as int, dotn as int, 2_000_000, 2_000_000);
        crate::geom::lemma_mul_range(e as int, e as int, 10_000_000, 10_000_000);
        crate::geom::lemma_mul_range(e as int * e as int, 1_000_000_000_000
            - dotn as int * dotn as int, 100_000_000_000_000, 5_000_000_000_000);
    }
    let q: i128 = div_floor_i128(e * e * (1_000_000_000_000 - dotn * dotn), 1_000_000_000_000);
    proof {
        lemma_div_bounded(e as int * e as int * (1_000_000_000_000 - dotn as int * dotn as int),
            1_000_000_000_000int, 500_000_000_000_000int);
    }
    let k: i128 = 1_000_000_000_000 - q;
    if k < 0 {
        return None;
    }
    let s: u128 = isqrt_u128(k as u128);
    proof {
        assert(23_000_000 * 23_000_000 == 529_000_000_000_000int);
        lemma_isqrt_bounds(k as nat, 23_000_000);
        crate::geom::lemma_mul_range(e as int, dotn as int, 10_000_000, 2_000_000);
    }
    let q2: i128 = div_floor_i128(e * dotn, 1_000_000);
    proof {
        lemma_div_bounded(e as int * dotn as int, 1_000_000, 20_000_000);
    }
    let coef: i128 = q2 + s as i128;
    proof {
        crate::geom::lemma_mul_range(e as int, du.0 as int, 10_000_000, 1_000_000);
        crate::geom::lemma_mul_range(e as int, du.1 as int, 10_000_000, 1_000_000);
        crate::geom::lemma_mul_range(coef as int, nu.0 as int, 43_000_000, 1_000_000);
        crate::geom::lemma_mul_range(coef as int, nu.1 as int, 43_000_000, 1_000_000);
    }
    let ox: i128 = div_floor_i128(e * du.0 as i128 - coef * nu.0 as i128, 1_000_000);
    let oy: i128 = div_floor_i128(e * du.1 as i128 - coef * nu.1 as i128, 1_000_000);
    proof {
        lemma_div_bounded(e as int * du.0 as int - coef as int * nu.0 as int, 1_000_000,
            53_000_000);
        lemma_div_bounded(e as int * du.1 as int - coef as int * nu.1 as int, 1_000_000,
            53_000_000);
    }
    Some(Vec2i { x: ox as i64, y: oy as i64 })
}

/// What the Schlick approximation of the Fresnel reflectance returns, in
/// millionths: `r0 + (1 - r0) (1 - cos)^5` with
/// `r0 = ((n1 - n2) / (n1 + n2))^2`, going through the transmission angle
/// (clamped to a cosine of at most one) when the light passes into a less
/// dense medium, and one (full reflection) past the critical angle.  The
/// result is blended towards full reflectivity by the scene-wide object
/// reflectivity, except on total internal reflection, which returns one
/// unblended.
pub open spec fn spec_fresnel_reflect_amount(
    n1_ppm: u32,
    n2_ppm: u32,
    normal: Vec2i,
    incident: Vec2i,
    object_reflectivity_ppm: u32,
) -> int {
    let nu = spec_unit_ppm(normal);
    let iu = spec_unit_ppm(incident);
    let n1: int = n1_ppm as int;
    let n2: int = n2_ppm as int;
    let r0: int = ((n1 - n2) * (n1 - n2) * 1_000_000) / ((n1 + n2) * (n1 + n2));
    let cos0: int = (nu.0 * iu.0 + nu.1 * iu.1) / 1_000_000;
    let sin_t2: int = (n1 * n1 * (1_000_000_000_000 - cos0 * cos0)) / (n2 * n2);
    if n1 > n2 && sin_t2 > 1_000_000_000_000 {
        1_000_000int
    } else {
        let cosx: int = if n1 > n2 {
            let disc: int = if 1_000_000_000_000 - sin_t2 > 1_000_000_000_000 {
                1_000_000_000_000int
            } else {
                1_000_000_000_000 - sin_t2
            };
            isqrt(disc as nat) as int
        } else {
            cos0
        };
        let x: int = 1_000_000 - cosx;
        let x5d: int = ((x * x) * (x * x) * x) / 1_000_000_000_000int;
        let ret: int = r0 + ((1_000_000 - r0) * x5d) / 1_000_000_000_000_000_000int;
        let orp: int = object_reflectivity_ppm as int;
        orp + ((1_000_000 - orp) * ret) / 1_000_000
    }
}

/// The Schlick approximation of the Fresnel reflectance, executable.  The
/// refractive indices and the object reflectivity are in millionths.
#[allow(non_snake_case)]
pub fn FresnelReflectAmount(
    n1_ppm: u32,
    n2_ppm: u32,
    normal: Vec2i,
    incident: Vec2i,
    object_reflectivity_ppm: u32,
) -> (r: i64)
    requires
        normal_ok(normal),
        dir_ok(incident),
        1 <= n1_ppm <= 10_000_000,
        1 <= n2_ppm <= 10_000_000,
        object_reflectivity_ppm <= 1_000_000,
    ensures
        r == spec_fresnel_reflect_amount(n1_ppm, n2_ppm, normal, incident,
            object_reflectivity_ppm),
{
    let nu: (i64, i64) = unit_ppm(normal);
    let iu: (i64, i64) = unit_ppm(incident);
    let n1: i128 = n1_ppm as i128;
    let n2: i128 = n2_ppm as i128;
    proof {
        crate::geom::lemma_mul_range((n1 - n2) as int, (n1 - n2) as int, 10_000_000, 10_000_000);
        crate::geom::lemma_mul_range((n1 + n2) as int, (n1 + n2) as int, 20_000_000, 20_000_000);
        assert((n1 + n2) * (n1 + n2) >= 1 && (n1 - n2) * (n1 - n2) >= 0 && (n1 - n2) * (n1 - n2)
            <= (n1 + n2) * (n1 + n2)) by (nonlinear_arith)
            requires
                n1 >= 1,
                n2 >= 1,
        ;
        assert((n1 - n2) as int * (n1 - n2) as int * 1_000_000 <= ((n1 + n2) as int * (n1 + n2)
            as int) * 1_000_000 && 0 <= (n1 - n2) as int * (n1 - n2) as int * 1_000_000)
            by (nonlinear_arith)
            requires
                0 <= (n1 - n2) as int * (n1 - n2) as int <= (n1 + n2) as int * (n1 + n2) as int,
        ;
        assert(((n1 + n2) as int * (n1 + n2) as int) * 1_000_000 == 1_000_000 * ((n1 + n2) as int
            * (n1 + n2) as int) && -(1_000_000 * ((n1 + n2) as int * (n1 + n2) as int)) <= 0)
            by (nonlinear_arith)
            requires
                (n1 + n2) as int * (n1 + n2) as int >= 1,
        ;
    }
    let r0: i128 = div_floor_i128((n1 - n2) * (n1 - n2) * 1_000_000, (n1 + n2) * (n1 + n2));
    proof {
        lemma_div_bounded((n1 - n2) as int * (n1 - n2) as int * 1_000_000, (n1 + n2) as int * (n1
            + n2) as int, 1_000_000);
        crate::geom::lemma_mul_range(nu.0 as int, iu.0 as int, 1_000_000, 1_000_000);
        crate::geom::lemma_mul_range(nu.1 as int, iu.1 as int, 1_000_000, 1_000_000);
    }
    let cos0: i128 = div_floor_i128(
        nu.0 as i128 * iu.0 as i128 + nu.1 as i128 * iu.1 as i128,
        1_000_000,
    );
    proof {
        lemma_div_bounded(nu.0 as int * iu.0 as int + nu.1 as int * iu.1 as int, 1_000_000,
            2_000_000);
        crate::geom::lemma_mul_range(cos0 as int, cos0 as int, 2_000_000, 2_000_000);
        crate::geom::lemma_mul_range(n1 as int, n1 as int, 10_000_000, 10_000_000);
        crate::geom::lemma_mul_range(n1 as int * n1 as int, 1_000_000_000_000
            - cos0 as int * cos0 as int, 100_000_000_000_000, 5_000_000_000_000);
        crate::geom::lemma_mul_range(n2 as int, n2 as int, 10_000_000, 10_000_000);
        assert(n2 * n2 >= 1) by (nonlinear_arith)
            requires
                n2 >= 1,
        ;
    }
    let sin_t2: i128 = div_floor_i128(n1 * n1 * (1_000_000_000_000 - cos0 * cos0), n2 * n2);
    proof {
        lemma_div_bounded_abs(n1 as int * n1 as int * (1_000_000_000_000 - cos0 as int * cos0
            as int), n2 as int * n2 as int, 500_000_000_000_000_000_000_000_000int);
    }
    if n1 > n2 && sin_t2 > 1_000_000_000_000 {
        return 1_000_000;
    }
    let cosx: i128 = if n1 > n2 {
        let d0: i128 = 1_000_000_000_000 - sin_t2;
        let disc: i128 = if d0 > 1_000_000_000_000 {
            1_000_000_000_000
        } else {
            d0
        };
        let sq: u128 = isqrt_u128(disc as u128);
        proof {
            assert(1_000_000 * 1_000_000 == 1_000_000_000_000int);
            lemma_isqrt_bounds(disc as nat, 1_000_000);
        }
        sq as i128
    } else {
        cos0
    };
    let x: i128 = 1_000_000 - cosx;
    proof {
        crate::geom::lemma_mul_range(x as int, x as int, 3_000_000, 3_000_000);
        crate::geom::lemma_mul_range(x as int * x as int, x as int * x as int,
            9_000_000_000_000, 9_000_000_000_000);
        crate::geom::lemma_mul_range((x as int * x as int) * (x as int * x as int), x as int,
            81_000_000_000_000_000_000_000_000, 3_000_000);
    }
    let x5d: i128 = div_floor_i128((x * x) * (x * x) * x, 1_000_000_000_000);
    proof {
        lemma_div_bounded(((x as int * x as int) * (x as int * x as int)) * (x as int),
            1_000_000_000_000int, 243_000_000_000_000_000_000int);
        crate::geom::lemma_mul_range((1_000_000 - r0) as int, x5d as int, 1_000_000,
            243_000_000_000_000_000_000int);
    }
    let t: i128 = div_floor_i128((1_000_000 - r0) * x5d, 1_000_000_000_000_000_000);
    proof {
        lemma_div_bounded((1_000_000 - r0) as int * x5d as int, 1_000_000_000_000_000_000int,
            243_000_000int);
    }
    let ret: i128 = r0 + t;
    let orp: i128 = object_reflectivity_ppm as i128;
    proof {
        crate::geom::lemma_mul_range((1_000_000 - orp) as int, ret as int, 1_000_000,
            500_000_000);
    }
    let blended: i128 = orp + div_floor_i128((1_000_000 - orp) * ret, 1_000_000);
    proof {
        lemma_div_bounded((1_000_000 - orp) as int * ret as int, 1_000_000, 500_000_000);
    }
    blended as i64
}

/// The laser: a position, a pointing direction, and the ray it casts into
/// the scene.
pub struct Laser {
    pub position: Vec2i,
    pub direction: Vec2i,
    pub ray: Ray,
}

impl Laser {
    /// Distance at which a ray that hits nothing is considered to have left
    /// the scene.
    pub const MAX_DISTANCE: i64 = 20_000;

    /// A new laser at `position` pointing along `direction`.  Its ray is
    /// red at full intensity and starts a fixed offset of 35 units ahead of
    /// the laser, so the beam clears the laser's own housing.
    pub fn new(position: Vec2i, direction: Vec2i) -> (l: Laser)
        requires
            origin_ok(position),
            dir_ok(direction),
        ensures
            l.position == position,
            l.direction == direction,
            l.ray.direction == direction,
            l.ray.origin == spec_exit_point(position, direction, 35),
            l.ray.color == (Color { r: 1_000_000, g: 0, b: 0, a: 1_000_000 }),
    {
        let origin: Vec2i = exit_point(position, direction, 35);
        Laser {
            position,
            direction,
            ray: Ray {
                origin,
                direction,
                color: Color { r: 1_000_000, g: 0, b: 0, a: 1_000_000 },
            },
        }
    }

    /// Point the laser at a target: the stored direction becomes the raw
    /// offset vector, and the ray's direction its reduced (normalized)
    /// form -- the zero vector if the target is the laser's own position.
    pub fn look_at(&mut self, position: Vec2i)
        requires
            origin_ok(old(self).position),
            origin_ok(position),
        ensures
            final(self).position == old(self).position,
            final(self).ray.origin == old(self).ray.origin,
            final(self).ray.color == old(self).ray.color,
            final(self).direction == (Vec2i {
                x: (position.x - old(self).position.x) as i64,
                y: (position.y - old(self).position.y) as i64,
            }),
            (final(self).ray.direction.x as int, final(self).ray.direction.y as int)
                == crate::geom::spec_reduce_vec(
                position.x - old(self).position.x,
                position.y - old(self).position.y,
            ),
    {
        let diff: Vec2i = Vec2i { x: position.x - self.position.x, y: position.y - self.position.y };
        self.direction = diff;
        self.ray.direction = crate::geom::reduce_vec(diff);
    }

    /// Propagate the laser's ray through the scene and return the drawable
    /// segments, in breadth-first emission order, never more than
    /// `max_rays` of them.
    pub fn solve_collisions(&self, segments: &[Segment], max_rays: usize, max_distance: i64) -> (r:
        Vec<(Vec2i, Vec2i, Color)>)
        requires
            ray_valid(self.ray),
            scene_ok(segments@),
            0 <= max_distance <= 100_000,
        ensures
            r@ == spec_solve(seq![(self.ray, None)], segments@, max_rays as nat, max_distance),
            r@.len() <= max_rays,
    {
        let ray0: Ray = self.ray;
        let mut ray_stack: VecDeque<(Ray, Option<Segment>)> = VecDeque::new();
        ray_stack.push_back((ray0, None));
        let mut lines_stack: Vec<(Vec2i, Vec2i, Color)> = Vec::new();
        proof {
            assert(ray_stack@ =~= seq![(self.ray, None::<Segment>)]);
        }
        while lines_stack.len() < max_rays && ray_stack.len() != 0
            invariant
                scene_ok(segments@),
                queue_valid(ray_stack@),
                lines_stack@.len() <= max_rays,
                0 <= max_distance <= 100_000,
                spec_solve(seq![(self.ray, None)], segments@, max_rays as nat, max_distance)
                    == lines_stack@ + spec_solve(
                    ray_stack@,
                    segments@,
                    (max_rays - lines_stack@.len()) as nat,
                    max_distance,
                ),
            decreases max_rays - lines_stack.len(), ray_stack.len(),
        {
            let ghost q0: Seq<(Ray, Option<Segment>)> = ray_stack@;
            let ghost budget0: nat = (max_rays - lines_stack@.len()) as nat;
            let popped: (Ray, Option<Segment>) = ray_stack.pop_front().unwrap();
            let ray: Ray = popped.0;
            let origin_segment: Option<Segment> = popped.1;
            proof {
                assert(popped == q0[0]);
                assert(ray_stack@ =~= q0.drop_first());
                assert(ray_valid(q0[0].0));
            }
            if ray.color.a <= ENERGY_MIN {
                proof {
                    assert(spec_solve(q0, segments@, budget0, max_distance) == spec_solve(
                        ray_stack@,
                        segments@,
                        budget0,
                        max_distance,
                    ));
                }
            } else {
                match find_closest_segment_new(ray, segments, origin_segment, max_distance) {
                    Some(hs) => {
                        let collision: HitParts = hs.0;
                        let segment: Segment = hs.1;
                        proof {
                            crate::geom::lemma_intersect_props(
                                ray.origin,
                                ray.direction,
                                segment.0,
                                segment.1,
                            );
                        }
                        let snapped: (i64, i64) = snap_point(collision.pos);
                        let org: Vec2i = Vec2i { x: snapped.0, y: snapped.1 };
                        match segment.2 {
                            EdgeState::Reflective => {
                                match crate::geom::reflect(ray.direction, collision.normal) {
                                    Some(rd) => {
                                        ray_stack.push_back(
                                            (
                                                Ray {
                                                    origin: org,
                                                    direction: rd,
                                                    color: ray.color,
                                                },
                                                Some(segment),
                                            ),
                                        );
                                    },
                                    None => {},
                                }
                            },
                            EdgeState::Transparent => {
                                let cpm: u32 = cos_ppm(ray.direction, collision.normal);
                                let is_critical: bool = cpm == CRITICAL_COS_PPM;
                                let f: u32 = fresnel_ppm(ray.direction, collision.normal);
                                let parts: (Color, Color) = split_colors(ray.color, f);
                                match crate::geom::reflect(ray.direction, collision.normal) {
                                    Some(rd) => {
                                        let rc: Color = if is_critical {
                                            ray.color
                                        } else {
                                            parts.0
                                        };
                                        ray_stack.push_back(
                                            (
                                                Ray { origin: org, direction: rd, color: rc },
                                                Some(segment),
                                            ),
                                        );
                                    },
                                    None => {},
                                }
                                if !is_critical {
                                    ray_stack.push_back(
                                        (
                                            Ray {
                                                origin: org,
                                                direction: ray.direction,
                                                color: parts.1,
                                            },
                                            Some(segment),
                                        ),
                                    );
                                }
                            },
                            EdgeState::Absorptive => {},
                        }
                        lines_stack.push((ray.origin, org, ray.color));
                        proof {
                            assert(org == (Vec2i {
                                x: spec_snap(collision.pos).0 as i64,
                                y: spec_snap(collision.pos).1 as i64,
                            }));
                            assert(ray_stack@ =~= q0.drop_first() + spec_children(
                                ray,
                                collision,
                                segment,
                            ));
                            assert(spec_solve(q0, segments@, budget0, max_distance) == seq![
                                (ray.origin, org, ray.color),
                            ] + spec_solve(
                                ray_stack@,
                                segments@,
                                (budget0 - 1) as nat,
                                max_distance,
                            ));
                        }
                    },
                    None => {
                        let end: Vec2i = exit_point(ray.origin, ray.direction, max_distance);
                        lines_stack.push((ray.origin, end, ray.color));
                        proof {
                            assert(spec_solve(q0, segments@, budget0, max_distance) == seq![
                                (ray.origin, end, ray.color),
                            ] + spec_solve(
                                ray_stack@,
                                segments@,
                                (budget0 - 1) as nat,
                                max_distance,
                            ));
                        }
                    },
                }
            }
            proof {
                assert(spec_solve(seq![(self.ray, None)], segments@, max_rays as nat, max_distance)
                    == lines_stack@ + spec_solve(
                    ray_stack@,
                    segments@,
                    (max_rays - lines_stack@.len()) as nat,
                    max_distance,
                ));
            }
        }
        proof {
            assert(spec_solve(
                ray_stack@,
                segments@,
                (max_rays - lines_stack@.len()) as nat,
                max_distance,
            ) == Seq::<(Vec2i, Vec2i, Color)>::empty());
            assert(lines_stack@ + Seq::<(Vec2i, Vec2i, Color)>::empty() =~= lines_stack@);
        }
        lines_stack
    }
}

} // verus!
