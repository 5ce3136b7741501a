//! Integer arithmetic for fixed-point world math: square roots and
//! division that rounds toward zero, with the bounds the physics needs.
use vstd::prelude::*;

verus! {

/// Absolute value over mathematical integers.
pub open spec fn abs_int(x: int) -> int {
    if x >= 0 {
        x
    } else {
        -x
    }
}

/// Division that rounds toward zero, as Rust's `/` on signed integers does.
pub open spec fn trunc_div(a: int, b: int) -> int {
    if a >= 0 {
        a / b
    } else {
        -((-a) / b)
    }
}

/// `r` is the least natural number whose square is at least `n`.
pub open spec fn is_ceil_sqrt(n: int, r: int) -> bool {
    &&& r >= 0
    &&& n <= r * r
    &&& (r == 0 || (r - 1) * (r - 1) < n)
}

/// The least natural number whose square is at least `n`.
pub open spec fn ceil_sqrt(n: int) -> int {
    choose|r: int| is_ceil_sqrt(n, r)
}

pub proof fn lemma_ceil_sqrt_unique(n: int, r1: int, r2: int)
    requires
        is_ceil_sqrt(n, r1),
        is_ceil_sqrt(n, r2),
    ensures
        r1 == r2,
{
    if r1 < r2 {
        assert(r1 <= r2 - 1);
        assert(r1 * r1 <= (r2 - 1) * (r2 - 1)) by (nonlinear_arith)
            requires
                0 <= r1 <= r2 - 1,
        ;
    } else if r2 < r1 {
        assert(r2 <= r1 - 1);
        assert(r2 * r2 <= (r1 - 1) * (r1 - 1)) by (nonlinear_arith)
            requires
                0 <= r2 <= r1 - 1,
        ;
    }
}

/// Whenever `r` is a ceiling square root of `n`, `ceil_sqrt(n)` is `r`.
pub proof fn lemma_ceil_sqrt_is(n: int, r: int)
    requires
        is_ceil_sqrt(n, r),
    ensures
        ceil_sqrt(n) == r,
{
    let c = ceil_sqrt(n);
    assert(is_ceil_sqrt(n, c));
    lemma_ceil_sqrt_unique(n, r, c);
}

pub proof fn lemma_trunc_div_bound(a: int, b: int)
    requires
        b > 0,
    ensures
        abs_int(trunc_div(a, b)) * b <= abs_int(a),
        abs_int(trunc_div(a, b)) <= abs_int(a),
        trunc_div(a, b) == 0 || (a >= 0) == (trunc_div(a, b) >= 0),
{
    let m = abs_int(a);
    assert((m / b) * b <= m) by (nonlinear_arith)
        requires
            m >= 0,
            b > 0,
    ;
    assert(m / b <= m) by (nonlinear_arith)
        requires
            m >= 0,
            b > 0,
    ;
    assert(m / b >= 0) by (nonlinear_arith)
        requires
            m >= 0,
            b > 0,
    ;
}

/// Rounding toward zero loses less than one: `(|trunc(a / b)| + 1) * b > |a|`.
pub proof fn lemma_trunc_div_lower(a: int, b: int)
    requires
        b > 0,
    ensures
        (abs_int(trunc_div(a, b)) + 1) * b > abs_int(a),
{
    let m = abs_int(a);
    vstd::arithmetic::div_mod::lemma_fundamental_div_mod(m, b);
    vstd::arithmetic::div_mod::lemma_mod_pos_bound(m, b);
    assert(m / b >= 0) by (nonlinear_arith)
        requires
            m >= 0,
            b > 0,
    ;
    assert(abs_int(trunc_div(a, b)) == m / b);
    assert((m / b + 1) * b > m) by (nonlinear_arith)
        requires
            m == b * (m / b) + m % b,
            m % b < b,
    ;
}

pub proof fn lemma_mul_abs_bound(a: int, b: int, ba: int, bb: int)
    requires
        abs_int(a) <= ba,
        abs_int(b) <= bb,
    ensures
        abs_int(a * b) <= ba * bb,
        -(ba * bb) <= a * b <= ba * bb,
{
    let x = abs_int(a);
    let y = abs_int(b);
    assert(x * y <= ba * bb) by (nonlinear_arith)
        requires
            0 <= x <= ba,
            0 <= y <= bb,
    ;
    assert(abs_int(a * b) == x * y) by (nonlinear_arith)
        requires
            x == abs_int(a),
            y == abs_int(b),
    ;
}

/// Scaling a vector of length at most `l` by `m / l`, each coordinate
/// rounded toward zero, gives a vector of length at most `m`.
pub proof fn lemma_scaled_norm(dx: int, dy: int, m: int, l: int)
    requires
        l > 0,
        m >= 0,
        dx * dx + dy * dy <= l * l,
    ensures
        trunc_div(dx * m, l) * trunc_div(dx * m, l) + trunc_div(dy * m, l) * trunc_div(dy * m, l)
            <= m * m,
{
    let qx = trunc_div(dx * m, l);
    let qy = trunc_div(dy * m, l);
    lemma_trunc_div_bound(dx * m, l);
    lemma_trunc_div_bound(dy * m, l);
    let ax = abs_int(qx);
    let ay = abs_int(qy);
    let ux = abs_int(dx);
    let uy = abs_int(dy);
    assert(abs_int(dx * m) == ux * m) by (nonlinear_arith)
        requires
            ux == abs_int(dx),
            m >= 0,
    ;
    assert(abs_int(dy * m) == uy * m) by (nonlinear_arith)
        requires
            uy == abs_int(dy),
            m >= 0,
    ;
    assert(ax * ax * (l * l) <= ux * ux * (m * m)) by (nonlinear_arith)
        requires
            ax >= 0,
            l > 0,
            ax * l <= ux * m,
            ux >= 0,
            m >= 0,
    ;
    assert(ay * ay * (l * l) <= uy * uy * (m * m)) by (nonlinear_arith)
        requires
            ay >= 0,
            l > 0,
            ay * l <= uy * m,
            uy >= 0,
            m >= 0,
    ;
    assert(ux * ux == dx * dx && uy * uy == dy * dy && ax * ax == qx * qx && ay * ay == qy * qy)
        by (nonlinear_arith)
        requires
            ux == abs_int(dx),
            uy == abs_int(dy),
            ax == abs_int(qx),
            ay == abs_int(qy),
    ;
    assert((qx * qx + qy * qy) * (l * l) <= (l * l) * (m * m)) by (nonlinear_arith)
        requires
            qx * qx * (l * l) <= dx * dx * (m * m),
            qy * qy * (l * l) <= dy * dy * (m * m),
            dx * dx + dy * dy <= l * l,
            m * m >= 0,
    ;
    assert(qx * qx + qy * qy <= m * m) by (nonlinear_arith)
        requires
            (qx * qx + qy * qy) * (l * l) <= (l * l) * (m * m),
            l > 0,
    ;
}

/// Division of `a` by a positive `b`, rounded toward zero.
pub fn div_toward_zero(a: i128, b: i128) -> (r: i128)
    requires
        b > 0,
        a > i128::MIN,
    ensures
        r == trunc_div(a as int, b as int),
{
    proof {
        lemma_trunc_div_bound(a as int, b as int);
    }
    if a >= 0 {
        a / b
    } else {
        let n: i128 = -a;
        -(n / b)
    }
}

/// Largest `r` with `r * r <= n`, found by bisection.
pub fn isqrt(n: u128) -> (r: u128)
    requires
        n < 0x10_0000_0000_0000_0000_0000_0000,
    ensures
        r * r <= n,
        n < (r + 1) * (r + 1),
        r <= 0x4_0000_0000_0000,
{
    let mut lo: u128 = 0;
    let mut hi: u128 = 0x4_0000_0000_0000;
    assert(0x4_0000_0000_0000u128 * 0x4_0000_0000_0000u128 == 0x10_0000_0000_0000_0000_0000_0000u128);
    while hi - lo > 1
        invariant
            lo < hi <= 0x4_0000_0000_0000,
            lo * lo <= n,
            n < hi * hi,
        decreases hi - lo,
    {
        let mid: u128 = lo + (hi - lo) / 2;
        assert(mid * mid <= 0x4_0000_0000_0000 * 0x4_0000_0000_0000) by (nonlinear_arith)
            requires
                mid <= 0x4_0000_0000_0000,
        ;
        if mid * mid <= n {
            lo = mid;
        } else {
            hi = mid;
        }
    }
    assert(hi == lo + 1);
    lo
}

/// Least `r` with `n <= r * r`.
pub fn ceil_isqrt(n: u128) -> (r: u128)
    requires
        n < 0x10_0000_0000_0000_0000_0000_0000,
    ensures
        is_ceil_sqrt(n as int, r as int),
        r as int == ceil_sqrt(n as int),
        r <= 0x4_0000_0000_0001,
{
    let s = isqrt(n);
    let r = if s * s == n {
        s
    } else {
        s + 1
    };
    proof {
        if r > 0 && r != s {
            assert((r - 1) * (r - 1) == s * s);
        }
        if r > 0 && r == s {
            assert((r - 1) * (r - 1) < r * r) by (nonlinear_arith)
                requires
                    r > 0,
            ;
        }
        lemma_ceil_sqrt_is(n as int, r as int);
    }
    r
}

} // verus!
