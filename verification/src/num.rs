//! Exact integer arithmetic helpers: greatest common divisor, integer
//! square root, and floor division for signed values.  The geometry of the
//! solver is built on these so that no floating point is ever needed.

use vstd::prelude::*;

verus! {

use vstd::arithmetic::div_mod::{
    lemma_fundamental_div_mod,
    lemma_fundamental_div_mod_converse,
    lemma_mod_self_0,
    lemma_small_mod,
};

/// Greatest common divisor of two natural numbers (Euclid's algorithm).
/// `gcd(0, 0) == 0` by convention.
pub open spec fn gcd(a: nat, b: nat) -> nat
    decreases b,
{
    if b == 0 {
        a
    } else {
        gcd(b, a % b)
    }
}

/// `d` divides `x` exactly.
pub open spec fn divides(d: nat, x: nat) -> bool
    recommends
        d > 0,
{
    (x as int) % (d as int) == 0
}

/// If `d` divides `x`, it divides every multiple of `x`.
proof fn lemma_divides_mul(d: nat, x: nat, y: int)
    requires
        d > 0,
        divides(d, x),
    ensures
        (x * y) % (d as int) == 0,
{
    lemma_fundamental_div_mod(x as int, d as int);
    let q = (x as int) / (d as int);
    assert(x == d * q);
    assert((d * q) * y == d * (q * y)) by (nonlinear_arith);
    lemma_fundamental_div_mod_converse(x * y, d as int, q * y, 0);
}

/// If `d` divides `x` and `y`, it divides `x + y`.
proof fn lemma_divides_add(d: nat, x: nat, y: nat)
    requires
        d > 0,
        divides(d, x),
        divides(d, y),
    ensures
        divides(d, x + y),
{
    lemma_fundamental_div_mod(x as int, d as int);
    lemma_fundamental_div_mod(y as int, d as int);
    let qx = (x as int) / (d as int);
    let qy = (y as int) / (d as int);
    assert(d * qx + d * qy == d * (qx + qy)) by (nonlinear_arith);
    lemma_fundamental_div_mod_converse((x + y) as int, d as int, qx + qy, 0);
}

/// Divisibility is transitive.
pub proof fn lemma_divides_trans(d1: nat, d2: nat, x: nat)
    requires
        d1 > 0,
        d2 > 0,
        divides(d1, d2),
        divides(d2, x),
    ensures
        divides(d1, x),
{
    lemma_fundamental_div_mod(d2 as int, d1 as int);
    lemma_fundamental_div_mod(x as int, d2 as int);
    let k = (d2 as int) / (d1 as int);
    let m = (x as int) / (d2 as int);
    assert(x as int == (d1 as int) * (k * m) + 0) by (nonlinear_arith)
        requires
            d2 == (d1 as int) * k,
            x == (d2 as int) * m,
    ;
    lemma_fundamental_div_mod_converse(x as int, d1 as int, k * m, 0);
}

/// The greatest common divisor is positive when some argument is, and it
/// divides both arguments.
pub proof fn lemma_gcd_divides(a: nat, b: nat)
    requires
        a > 0 || b > 0,
    ensures
        gcd(a, b) > 0,
        divides(gcd(a, b), a),
        divides(gcd(a, b), b),
    decreases b,
{
    if b == 0 {
        lemma_mod_self_0(a as int);
        lemma_small_mod(0, a);
    } else {
        let r = a % b;
        lemma_gcd_divides(b, r);
        let g = gcd(b, r);
        // a == b * (a / b) + r, and g divides both summands.
        lemma_fundamental_div_mod(a as int, b as int);
        lemma_divides_mul(g, b, a as int / b as int);
        lemma_divides_add(g, (b * (a as int / b as int)) as nat, r);
    }
}

/// Dividing an exact multiple by the divisor and multiplying back returns
/// the original value.
pub proof fn lemma_div_exact(x: nat, d: nat)
    requires
        d > 0,
        divides(d, x),
    ensures
        (x as int / d as int) * (d as int) == x,
        x as int / d as int >= 0,
{
    lemma_fundamental_div_mod(x as int, d as int);
    assert(d * (x as int / d as int) == (x as int / d as int) * d) by (nonlinear_arith);
    if (x as int / d as int) < 0 {
        assert((x as int / d as int) * (d as int) <= (-1) * (d as int)) by (nonlinear_arith)
            requires x as int / d as int <= -1 && d > 0;
    }
}

/// Multiplication by a nonnegative factor preserves order.
pub proof fn lemma_mul_le_mono(a: int, b: int, c: int)
    by (nonlinear_arith)
    requires
        a <= b,
        0 <= c,
    ensures
        a * c <= b * c,
        0 <= a ==> 0 <= a * c,
{
}

/// Euclid's algorithm, executable.
pub fn gcd_u128(a: u128, b: u128) -> (r: u128)
    ensures
        r == gcd(a as nat, b as nat),
    decreases b,
{
    if b == 0 {
        a
    } else {
        gcd_u128(b, a % b)
    }
}

/// `r` is the integer square root of `n`.
pub open spec fn is_isqrt(n: nat, r: nat) -> bool {
    r * r <= n < (r + 1) * (r + 1)
}

/// The integer square root, as a function.
pub closed spec fn isqrt(n: nat) -> nat {
    choose|r: nat| #[trigger] is_isqrt(n, r)
}

/// An integer square root exists for every natural number (constructively,
/// by induction), so `isqrt` satisfies its defining property.
pub proof fn lemma_isqrt_exists(n: nat)
    ensures
        is_isqrt(n, isqrt(n)),
    decreases n,
{
    if n == 0 {
        assert(is_isqrt(0, 0)) by (nonlinear_arith);
    } else {
        lemma_isqrt_exists((n - 1) as nat);
        let r = choose|r: nat| #[trigger] is_isqrt((n - 1) as nat, r);
        if (r + 1) * (r + 1) <= n {
            assert(is_isqrt(n, r + 1)) by (nonlinear_arith)
                requires
                    r * r <= n - 1,
                    n - 1 < (r + 1) * (r + 1),
                    (r + 1) * (r + 1) <= n,
            ;
        } else {
            assert(is_isqrt(n, r));
        }
    }
}

/// Integer square roots are unique.
pub proof fn lemma_isqrt_unique(n: nat, r1: nat, r2: nat)
    requires
        is_isqrt(n, r1),
        is_isqrt(n, r2),
    ensures
        r1 == r2,
{
    if r1 < r2 {
        assert((r1 + 1) * (r1 + 1) <= r2 * r2) by (nonlinear_arith)
            requires r1 + 1 <= r2;
    }
    if r2 < r1 {
        assert((r2 + 1) * (r2 + 1) <= r1 * r1) by (nonlinear_arith)
            requires r2 + 1 <= r1;
    }
}

/// Integer square root, executable (binary search).
pub fn isqrt_u128(n: u128) -> (r: u128)
    ensures
        r == isqrt(n as nat),
        is_isqrt(n as nat, r as nat),
{
    let mut lo: u128 = 0;
    let mut hi: u128 = 0x1_0000_0000_0000_0000;
    if n == 0 {
        proof {
            assert(is_isqrt(0, 0)) by (nonlinear_arith);
            lemma_isqrt_exists(0);
            lemma_isqrt_unique(0, 0, isqrt(0));
        }
        return 0;
    }
    proof {
        assert(hi * hi > n) by (nonlinear_arith)
            requires hi == 0x1_0000_0000_0000_0000u128 && n <= u128::MAX;
    }
    while hi - lo > 1
        invariant
            lo < hi <= 0x1_0000_0000_0000_0000u128,
            (lo as nat) * (lo as nat) <= n as nat,
            (hi as nat) * (hi as nat) > n as nat,
        decreases hi - lo,
    {
        let mid = lo + (hi - lo) / 2;
        assert(lo < mid < hi);
        let sq = {
            proof {
                assert(mid * mid <= u128::MAX) by (nonlinear_arith)
                    requires mid < 0x1_0000_0000_0000_0000u128;
            }
            mid * mid
        };
        if sq <= n {
            lo = mid;
        } else {
            hi = mid;
        }
    }
    proof {
        assert((lo + 1) as nat * ((lo + 1) as nat) > n as nat);
        lemma_isqrt_exists(n as nat);
        lemma_isqrt_unique(n as nat, lo as nat, isqrt(n as nat));
    }
    lo
}

/// Half the width of a 128-bit value, as a multiplier.
pub const HALF128: u128 = 0x1_0000_0000_0000_0000;

/// The full product of two 128-bit values, split into a high and a low
/// half: `x * y == r.0 * 2^128 + r.1`.  Computed from 64-bit halves, so no
/// intermediate overflows.
fn mul_wide_u128(x: u128, y: u128) -> (r: (u128, u128))
    ensures
        r.0 * 0x1_0000_0000_0000_0000_0000_0000_0000_0000 + r.1 == x * y,
{
    let xh: u128 = x / HALF128;
    let xl: u128 = x % HALF128;
    let yh: u128 = y / HALF128;
    let yl: u128 = y % HALF128;
    proof {
        lemma_fundamental_div_mod(x as int, HALF128 as int);
        lemma_fundamental_div_mod(y as int, HALF128 as int);
        vstd::arithmetic::div_mod::lemma_div_is_ordered(x as int, 0xFFFF_FFFF_FFFF_FFFF_FFFF_FFFF_FFFF_FFFFu128 as int, HALF128 as int);
        vstd::arithmetic::div_mod::lemma_div_is_ordered(y as int, 0xFFFF_FFFF_FFFF_FFFF_FFFF_FFFF_FFFF_FFFFu128 as int, HALF128 as int);
        assert(0xFFFF_FFFF_FFFF_FFFF_FFFF_FFFF_FFFF_FFFFu128 as int / (HALF128 as int)
            == 0xFFFF_FFFF_FFFF_FFFFu128 as int);
        assert(xh * yh <= 0xFFFF_FFFF_FFFF_FFFFu128 as int * 0xFFFF_FFFF_FFFF_FFFFu128 as int
            && xh * yl <= 0xFFFF_FFFF_FFFF_FFFFu128 as int * 0xFFFF_FFFF_FFFF_FFFFu128 as int
            && xl * yh <= 0xFFFF_FFFF_FFFF_FFFFu128 as int * 0xFFFF_FFFF_FFFF_FFFFu128 as int
            && xl * yl <= 0xFFFF_FFFF_FFFF_FFFFu128 as int * 0xFFFF_FFFF_FFFF_FFFFu128 as int)
            by (nonlinear_arith)
            requires
                0 <= xh <= 0xFFFF_FFFF_FFFF_FFFFu128,
                0 <= yh <= 0xFFFF_FFFF_FFFF_FFFFu128,
                0 <= xl <= 0xFFFF_FFFF_FFFF_FFFFu128,
                0 <= yl <= 0xFFFF_FFFF_FFFF_FFFFu128,
        ;
    }
    let a: u128 = xh * yh;
    let b: u128 = xh * yl;
    let c: u128 = xl * yh;
    let dd: u128 = xl * yl;
    proof {
        lemma_fundamental_div_mod(b as int, HALF128 as int);
        lemma_fundamental_div_mod(c as int, HALF128 as int);
        lemma_fundamental_div_mod(dd as int, HALF128 as int);
        vstd::arithmetic::div_mod::lemma_div_is_ordered(b as int, (HALF128 - 1) as int * ((HALF128
            - 1) as int), HALF128 as int);
        vstd::arithmetic::div_mod::lemma_div_is_ordered(c as int, (HALF128 - 1) as int * ((HALF128
            - 1) as int), HALF128 as int);
        vstd::arithmetic::div_mod::lemma_div_is_ordered(dd as int, (HALF128 - 1) as int * ((HALF128
            - 1) as int), HALF128 as int);
        assert((HALF128 - 1) as int * ((HALF128 - 1) as int) / (HALF128 as int) == HALF128 as int
            - 2) by (nonlinear_arith);
    }
    let mid: u128 = b % HALF128 + c % HALF128 + dd / HALF128;
    proof {
        lemma_fundamental_div_mod(mid as int, HALF128 as int);
        vstd::arithmetic::div_mod::lemma_div_is_ordered(mid as int, 3 * (HALF128 as int) - 3,
            HALF128 as int);
        assert((3 * (HALF128 as int) - 3) / (HALF128 as int) == 2);
    }
    let lo: u128 = (mid % HALF128) * HALF128 + dd % HALF128;
    let hi: u128 = a + b / HALF128 + c / HALF128 + mid / HALF128;
    proof {
        let h: int = HALF128 as int;
        let rr: int = h * h;
        assert(x * y == a * rr + (b + c) * h + dd) by (nonlinear_arith)
            requires
                x == h * xh + xl,
                y == h * yh + yl,
                a == xh * yh,
                b == xh * yl,
                c == xl * yh,
                dd == xl * yl,
                rr == h * h,
        ;
        assert((b + c) * h + dd == (b as int / h + c as int / h) * rr + mid * h + dd as int % h)
            by (nonlinear_arith)
            requires
                b == h * (b as int / h) + b as int % h,
                c == h * (c as int / h) + c as int % h,
                dd == h * (dd as int / h) + dd as int % h,
                mid == b as int % h + c as int % h + dd as int / h,
                rr == h * h,
        ;
        assert((b as int / h + c as int / h) * rr + mid * h + dd as int % h == (b as int / h
            + c as int / h + mid as int / h) * rr + (mid as int % h) * h + dd as int % h)
            by (nonlinear_arith)
            requires
                mid == h * (mid as int / h) + mid as int % h,
                rr == h * h,
        ;
        assert(hi * rr + lo == (a + (b as int / h + c as int / h + mid as int / h)) * rr + lo)
            by (nonlinear_arith)
            requires
                hi == a + b as int / h + c as int / h + mid as int / h,
        ;
        assert((a + (b as int / h + c as int / h + mid as int / h)) * rr == a * rr + (b as int / h
            + c as int / h + mid as int / h) * rr) by (nonlinear_arith);
        assert(rr == 0x1_0000_0000_0000_0000_0000_0000_0000_0000int) by (nonlinear_arith)
            requires
                h == 0x1_0000_0000_0000_0000int,
                rr == h * h,
        ;
    }
    (hi, lo)
}

/// Exact comparison of two products of 128-bit values: whether
/// `a * b < c * d`, with no overflow however large the factors.
pub fn prod_lt(a: u128, b: u128, c: u128, d: u128) -> (r: bool)
    ensures
        r == (a * b < c * d),
{
    let p1: (u128, u128) = mul_wide_u128(a, b);
    let p2: (u128, u128) = mul_wide_u128(c, d);
    proof {
        let rr: int = 0x1_0000_0000_0000_0000_0000_0000_0000_0000int;
        if p1.0 < p2.0 {
            assert(a * b < c * d) by (nonlinear_arith)
                requires
                    p1.0 * rr + p1.1 == a * b,
                    p2.0 * rr + p2.1 == c * d,
                    p1.1 < rr,
                    p1.0 + 1 <= p2.0,
                    rr > 0,
            ;
        } else if p1.0 > p2.0 {
            assert(c * d < a * b) by (nonlinear_arith)
                requires
                    p1.0 * rr + p1.1 == a * b,
                    p2.0 * rr + p2.1 == c * d,
                    p2.1 < rr,
                    p2.0 + 1 <= p1.0,
                    rr > 0,
            ;
        }
    }
    p1.0 < p2.0 || (p1.0 == p2.0 && p1.1 < p2.1)
}

/// Floor division of a signed value by a positive divisor, matching the
/// mathematical (Euclidean) division of specifications.
pub fn div_floor_i128(n: i128, d: i128) -> (r: i128)
    requires
        d > 0,
        -0x4000_0000_0000_0000_0000_0000_0000_0000 < n,
    ensures
        r == n as int / d as int,
{
    if n >= 0 {
        let q = (n as u128) / (d as u128);
        proof {
            assert(q == n as int / d as int);
        }
        q as i128
    } else {
        let m = (-n) as u128;
        let du = d as u128;
        let q = m / du;
        let rem = m % du;
        proof {
            lemma_fundamental_div_mod(m as int, du as int);
            assert(m == du * q + rem);
            if rem == 0 {
                assert(n as int == (d as int) * (-(q as int)) + 0) by (nonlinear_arith)
                    requires
                        m == du * q + rem,
                        rem == 0,
                        n == -(m as int),
                        du == d,
                ;
                lemma_fundamental_div_mod_converse(n as int, d as int, -(q as int), 0);
            } else {
                assert(n as int == (d as int) * (-(q as int) - 1) + (d - rem)) by (nonlinear_arith)
                    requires
                        m == du * q + rem,
                        n == -(m as int),
                        du == d,
                ;
                lemma_fundamental_div_mod_converse(
                    n as int,
                    d as int,
                    -(q as int) - 1,
                    d - rem,
                );
            }
        }
        if rem == 0 {
            -(q as i128)
        } else {
            -(q as i128) - 1
        }
    }
}

} // verus!
