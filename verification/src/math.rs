//! Fixed-point scalar helpers: truncating signed division, clamping, the
//! integer square root, and the small nonlinear lemmas the physics proofs
//! lean on.

use vstd::prelude::*;
use vstd::arithmetic::div_mod::lemma_fundamental_div_mod;

verus! {

/// Magnitude of an integer.
pub open spec fn abs_i(a: int) -> int {
    if a < 0 {
        -a
    } else {
        a
    }
}

/// Signed division truncating toward zero (the machine's `/` on integers),
/// expressed with non-negative Euclidean divisions only.
pub open spec fn sdiv(a: int, b: int) -> int
    recommends
        b >= 1,
{
    if a >= 0 {
        a / b
    } else {
        -((-a) / b)
    }
}

/// Clamp `a` into `[lo, hi]`.
pub open spec fn clamp_i(a: int, lo: int, hi: int) -> int
    recommends
        lo <= hi,
{
    if a < lo {
        lo
    } else if a > hi {
        hi
    } else {
        a
    }
}

/// `r` is the floor of the square root of `n`.
pub open spec fn is_sqrt_floor(n: int, r: int) -> bool {
    &&& 0 <= r
    &&& r * r <= n
    &&& n < (r + 1) * (r + 1)
}

/// The floor of the square root of a non-negative integer.
pub open spec fn sqrt_floor(n: int) -> int
    recommends
        n >= 0,
{
    choose|r: int| is_sqrt_floor(n, r)
}

/// Two square-root floors of the same number are equal.
pub proof fn lemma_sqrt_floor_unique(n: int, a: int, b: int)
    by (nonlinear_arith)
    requires
        is_sqrt_floor(n, a),
        is_sqrt_floor(n, b),
    ensures
        a == b,
{
}

/// Every non-negative integer has a square-root floor.
pub proof fn lemma_sqrt_floor_exists(n: int)
    requires
        n >= 0,
    ensures
        is_sqrt_floor(n, sqrt_floor(n)),
    decreases n,
{
    if n == 0 {
        assert(is_sqrt_floor(0, 0)) by (nonlinear_arith);
    } else {
        lemma_sqrt_floor_exists(n - 1);
        let r = sqrt_floor(n - 1);
        if n < (r + 1) * (r + 1) {
            assert(is_sqrt_floor(n, r));
        } else {
            assert(n == (r + 1) * (r + 1));
            assert((r + 1) * (r + 1) < (r + 2) * (r + 2)) by (nonlinear_arith)
                requires
                    r >= 0,
            ;
            assert(is_sqrt_floor(n, r + 1));
        }
    }
    assert(exists|w: int| is_sqrt_floor(n, w));
}

/// A witness pins `sqrt_floor` down.
pub proof fn lemma_sqrt_floor_is(n: int, r: int)
    requires
        n >= 0,
        is_sqrt_floor(n, r),
    ensures
        sqrt_floor(n) == r,
{
    assert(is_sqrt_floor(n, sqrt_floor(n)));
    lemma_sqrt_floor_unique(n, sqrt_floor(n), r);
}

/// Bound on a product from bounds on its factors.
pub proof fn lemma_mul_bound(a: int, b: int, aa: int, bb: int)
    by (nonlinear_arith)
    requires
        -aa <= a <= aa,
        -bb <= b <= bb,
    ensures
        -(aa * bb) <= a * b <= aa * bb,
{
}

/// A square is never negative.
pub proof fn lemma_sq_nonneg(a: int)
    by (nonlinear_arith)
    ensures
        a * a >= 0,
{
}

/// Squaring ignores sign.
pub proof fn lemma_abs_sq(a: int)
    by (nonlinear_arith)
    ensures
        abs_i(a) * abs_i(a) == a * a,
{
}

/// Monotonicity of squaring on non-negative integers.
pub proof fn lemma_sq_le(a: int, b: int)
    by (nonlinear_arith)
    requires
        0 <= a <= b,
    ensures
        a * a <= b * b,
{
}

/// Bound on a truncating quotient from a bound on the dividend.
pub proof fn lemma_sdiv_bound(a: int, b: int, c: int)
    by (nonlinear_arith)
    requires
        b >= 1,
        0 <= c,
        -(c * b) <= a <= c * b,
    ensures
        -c <= sdiv(a, b) <= c,
{
}

/// Truncating division keeps the dividend's sign and shrinks its magnitude.
pub proof fn lemma_sdiv_abs(a: int, b: int)
    by (nonlinear_arith)
    requires
        b >= 1,
    ensures
        abs_i(sdiv(a, b)) <= abs_i(a),
        a >= 0 ==> sdiv(a, b) >= 0,
        a <= 0 ==> sdiv(a, b) <= 0,
{
}

/// Truncating signed division, exactly `sdiv`.
pub fn div_to_zero(a: i64, b: i64) -> (r: i64)
    requires
        b >= 1,
        a != i64::MIN,
    ensures
        r == sdiv(a as int, b as int),
        abs_i(r as int) <= abs_i(a as int),
{
    proof {
        lemma_sdiv_abs(a as int, b as int);
    }
    if a >= 0 {
        ((a as u64) / (b as u64)) as i64
    } else {
        -((((-a) as u64) / (b as u64)) as i64)
    }
}

/// Clamp `a` into `[lo, hi]`.
pub fn clamp64(a: i64, lo: i64, hi: i64) -> (r: i64)
    requires
        lo <= hi,
    ensures
        r == clamp_i(a as int, lo as int, hi as int),
{
    if a < lo {
        lo
    } else if a > hi {
        hi
    } else {
        a
    }
}

/// Floor of the square root, by binary search.
pub fn isqrt(n: u64) -> (r: u64)
    requires
        n <= 0x7fff_ffff_ffff_ffff,
    ensures
        is_sqrt_floor(n as int, r as int),
        r <= 3_037_000_499,
{
    let mut lo: u64 = 0;
    let mut hi: u64 = 3_037_000_499;
    proof {
        assert((3_037_000_499int + 1) * (3_037_000_499int + 1) > 0x7fff_ffff_ffff_ffffint)
            by (nonlinear_arith);
    }
    while lo < hi
        invariant
            lo <= hi,
            hi <= 3_037_000_499,
            lo * lo <= n,
            n < (hi + 1) * (hi + 1),
        decreases hi - lo,
    {
        let mid: u64 = lo + (hi - lo + 1) / 2;
        assert(lo < mid <= hi);
        assert(mid * mid <= 3_037_000_499 * 3_037_000_499) by (nonlinear_arith)
            requires
                0 <= mid <= 3_037_000_499,
        ;
        assert(3_037_000_499u64 * 3_037_000_499u64 <= u64::MAX) by (nonlinear_arith);
        if mid * mid <= n {
            lo = mid;
        } else {
            hi = mid - 1;
        }
    }
    lo
}

/// A 2D vector of fixed-point coordinates.
#[derive(Clone, Copy, PartialEq, Eq, Structural, Debug)]
pub struct Vec2i {
    pub x: i64,
    pub y: i64,
}

impl Vec2i {
    /// Build a vector from its coordinates.
    pub fn new(x: i64, y: i64) -> (r: Vec2i)
        ensures
            r.x == x,
            r.y == y,
    {
        Vec2i { x, y }
    }
}


/// A truncating quotient's magnitude is the magnitude's quotient.
pub proof fn lemma_sdiv_abs_div(a: int, b: int)
    requires
        b >= 1,
    ensures
        abs_i(sdiv(a, b)) == abs_i(a) / b,
{
    if a >= 0 {
        assert(a / b >= 0) by (nonlinear_arith)
            requires
                a >= 0,
                b >= 1,
        ;
    } else {
        assert((-a) / b >= 0) by (nonlinear_arith)
            requires
                a < 0,
                b >= 1,
        ;
    }
}

/// Dividing an exact multiple recovers the factor.
pub proof fn lemma_sdiv_exact(k: int, b: int)
    by (nonlinear_arith)
    requires
        b >= 1,
    ensures
        sdiv(k * b, b) == k,
{
}

/// The square of `b` times the squared quotient `(n / b)` brackets the
/// square of `n`: from below within `(n - b)^2 - b^2`, from above by
/// `n^2` itself.
pub proof fn lemma_div_sq_bounds(n: int, b: int)
    requires
        n >= 0,
        b >= 1,
    ensures
        (n / b) * (n / b) * (b * b) <= n * n,
        (n / b) * (n / b) * (b * b) >= (n - b) * (n - b) - b * b,
{
    lemma_fundamental_div_mod(n, b);
    let q = n / b;
    let r = n % b;
    assert(q >= 0) by (nonlinear_arith)
        requires
            n >= 0,
            b >= 1,
            n == b * q + r,
            0 <= r < b,
    ;
    assert(q * b <= n && n < q * b + b) by (nonlinear_arith)
        requires
            n == b * q + r,
            0 <= r < b,
    ;
    assert((q * b) * (q * b) <= n * n) by (nonlinear_arith)
        requires
            0 <= q,
            1 <= b,
            q * b <= n,
    ;
    assert(q * q * (b * b) == (q * b) * (q * b)) by (nonlinear_arith);
    if n >= b {
        assert((n - b) * (n - b) <= (q * b) * (q * b)) by (nonlinear_arith)
            requires
                0 <= n - b,
                n - b < q * b || n - b <= q * b,
                n < q * b + b,
        ;
    } else {
        assert(q == 0) by (nonlinear_arith)
            requires
                0 <= q,
                q * b <= n,
                n < b,
                b >= 1,
        ;
        assert((n - b) * (n - b) <= b * b) by (nonlinear_arith)
            requires
                0 <= b - n,
                b - n <= b,
        ;
    }
}

} // verus!
