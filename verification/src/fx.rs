//! Fixed-point scalar arithmetic.
//!
//! An `i64` raw value `r` stands for the real number `r / FRAC`. Products and
//! quotients are computed through `i128` intermediates and rounded toward
//! zero, mirroring the truncating behaviour of hardware division. The spec
//! functions here are the mathematical model every contract in the crate is
//! stated over.

use vstd::prelude::*;
use vstd::arithmetic::div_mod::lemma_div_is_ordered;
use vstd::arithmetic::div_mod::lemma_fundamental_div_mod;

verus! {

/// Raw units per whole unit: values are scaled by 2^16.
pub const FRAC: i64 = 65536;

/// Magnitude of an integer.
pub open spec fn absi(a: int) -> int {
    if a >= 0 {
        a
    } else {
        -a
    }
}

/// Division rounding toward zero (the rounding of every scaled operation).
pub open spec fn tdiv(a: int, b: int) -> int
    recommends
        b != 0,
{
    if (a >= 0) == (b >= 0) {
        absi(a) / absi(b)
    } else {
        -(absi(a) / absi(b))
    }
}

/// Fixed-point product: a*b scaled back down by FRAC.
pub open spec fn fmul(a: int, b: int) -> int {
    tdiv(a * b, FRAC as int)
}

/// Fixed-point quotient: a/b at fixed-point scale.
pub open spec fn fdiv(a: int, b: int) -> int
    recommends
        b != 0,
{
    tdiv(a * (FRAC as int), b)
}

/// r is the integer square root of n.
pub open spec fn is_isqrt(n: int, r: int) -> bool {
    0 <= r && r * r <= n && n < (r + 1) * (r + 1)
}

/// The integer square root (floor of the real square root).
pub open spec fn isqrt_s(n: int) -> int
    recommends
        n >= 0,
{
    choose|r: int| #[trigger] is_isqrt(n, r)
}

pub proof fn lemma_isqrt_exists(n: int)
    requires
        n >= 0,
    ensures
        exists|r: int| #[trigger] is_isqrt(n, r),
    decreases n,
{
    if n == 0 {
        assert(is_isqrt(0, 0));
    } else {
        lemma_isqrt_exists(n - 1);
        let r = choose|r: int| #[trigger] is_isqrt(n - 1, r);
        if (r + 1) * (r + 1) <= n {
            assert(n == (r + 1) * (r + 1));
            assert((r + 2) * (r + 2) > n) by (nonlinear_arith)
                requires
                    r >= 0,
                    n == (r + 1) * (r + 1),
            ;
            assert(is_isqrt(n, r + 1));
        } else {
            assert(is_isqrt(n, r));
        }
    }
}

pub proof fn lemma_isqrt_unique(n: int, r: int)
    requires
        is_isqrt(n, r),
    ensures
        isqrt_s(n) == r,
{
    let r2 = isqrt_s(n);
    assert(is_isqrt(n, r2));
    if r < r2 {
        assert((r + 1) * (r + 1) <= r2 * r2) by (nonlinear_arith)
            requires
                0 <= r + 1 <= r2,
        ;
        assert(false);
    }
    if r2 < r {
        assert((r2 + 1) * (r2 + 1) <= r * r) by (nonlinear_arith)
            requires
                0 <= r2 + 1 <= r,
        ;
        assert(false);
    }
}

pub proof fn lemma_isqrt(n: int)
    requires
        n >= 0,
    ensures
        is_isqrt(n, isqrt_s(n)),
{
    lemma_isqrt_exists(n);
    let r = choose|r: int| #[trigger] is_isqrt(n, r);
    lemma_isqrt_unique(n, r);
}

/// The integer square root never decreases.
pub proof fn lemma_isqrt_ordered(a: int, b: int)
    requires
        0 <= a <= b,
    ensures
        isqrt_s(a) <= isqrt_s(b),
{
    lemma_isqrt(a);
    lemma_isqrt(b);
    let ra = isqrt_s(a);
    let rb = isqrt_s(b);
    if rb < ra {
        assert((rb + 1) * (rb + 1) <= ra * ra) by (nonlinear_arith)
            requires
                0 <= rb + 1 <= ra,
        ;
        assert(false);
    }
}

/// The magnitude of a truncating quotient is bounded by that of the dividend
/// scaled down by the divisor.
pub proof fn lemma_tdiv_bound(a: int, b: int, m: int)
    requires
        b > 0,
        absi(a) <= m,
    ensures
        absi(tdiv(a, b)) <= m / b,
        absi(tdiv(a, b)) <= m,
{
    lemma_div_is_ordered(absi(a), m, b);
    lemma_fundamental_div_mod(m, b);
    lemma_fundamental_div_mod(absi(a), b);
    assert(m / b <= m) by (nonlinear_arith)
        requires
            b > 0,
            m >= 0,
            m == b * (m / b) + m % b,
            0 <= m % b < b,
    ;
}

/// A product is bounded by the product of the factors' bounds.
pub proof fn lemma_mul_bound(a: int, b: int, ma: int, mb: int)
    requires
        absi(a) <= ma,
        absi(b) <= mb,
    ensures
        absi(a * b) <= ma * mb,
    decreases 0int,
{
    assert(absi(a * b) <= ma * mb) by (nonlinear_arith)
        requires
            absi(a) <= ma,
            absi(b) <= mb,
    ;
}

/// A fixed-point product is bounded by the product of the factors' bounds
/// scaled back down.
pub proof fn lemma_fmul_bound(a: int, b: int, ma: int, mb: int)
    requires
        absi(a) <= ma,
        absi(b) <= mb,
    ensures
        absi(fmul(a, b)) <= (ma * mb) / (FRAC as int),
        absi(fmul(a, b)) <= ma * mb,
{
    lemma_mul_bound(a, b, ma, mb);
    lemma_tdiv_bound(a * b, FRAC as int, ma * mb);
}

/// Truncating division as quotient and remainder: the remainder is smaller in
/// magnitude than the divisor and carries the dividend's sign.
pub proof fn lemma_tdiv_rem(a: int, b: int)
    requires
        b > 0,
    ensures
        a == b * tdiv(a, b) + (a - b * tdiv(a, b)),
        absi(a - b * tdiv(a, b)) < b,
        absi(b * tdiv(a, b)) <= absi(a),
{
    lemma_fundamental_div_mod(absi(a), b);
    let q = absi(a) / b;
    assert(absi(a) == b * q + absi(a) % b);
    if a >= 0 {
        assert(tdiv(a, b) == q);
    } else {
        assert(tdiv(a, b) == -q);
        assert(b * -q == -(b * q)) by (nonlinear_arith);
    }
}

/// The integer square root of a perfect square is its root.
pub proof fn lemma_isqrt_of_square(a: int)
    requires
        a >= 0,
    ensures
        isqrt_s(a * a) == a,
{
    assert(a * a < (a + 1) * (a + 1)) by (nonlinear_arith)
        requires
            a >= 0,
    ;
    assert(is_isqrt(a * a, a));
    lemma_isqrt_unique(a * a, a);
}

/// The integer square root of anything below m*m is below m.
pub proof fn lemma_isqrt_lt(n: int, m: int)
    requires
        0 <= n,
        n < m * m,
        0 <= m,
    ensures
        isqrt_s(n) < m,
{
    lemma_isqrt(n);
    let r = isqrt_s(n);
    if r >= m {
        assert(m * m <= r * r) by (nonlinear_arith)
            requires
                0 <= m <= r,
        ;
        assert(false);
    }
}

/// A truncating quotient shrinks by at least the magnitude of the divisor.
pub proof fn lemma_tdiv_div_bound(a: int, b: int, m: int, k: int)
    requires
        absi(a) <= m,
        absi(b) >= k,
        k >= 1,
    ensures
        absi(tdiv(a, b)) <= m / k,
{
    lemma_div_is_ordered(absi(a), m, absi(b));
    vstd::arithmetic::div_mod::lemma_div_is_ordered_by_denominator(m, k, absi(b));
}

/// The greater of two integers.
pub open spec fn maxi(a: int, b: int) -> int {
    if a >= b {
        a
    } else {
        b
    }
}

/// The lesser of two integers.
pub open spec fn mini(a: int, b: int) -> int {
    if a <= b {
        a
    } else {
        b
    }
}

/// A truncating quotient times its divisor never exceeds the dividend in
/// magnitude, whatever the divisor's sign.
pub proof fn lemma_tdiv_mul_bound(a: int, b: int)
    requires
        b != 0,
    ensures
        absi(b * tdiv(a, b)) <= absi(a),
{
    if b > 0 {
        lemma_tdiv_rem(a, b);
    } else {
        lemma_tdiv_rem(a, -b);
        assert(b * tdiv(a, b) == (-b) * tdiv(a, -b)) by (nonlinear_arith)
            requires
                tdiv(a, b) == -tdiv(a, -b),
        ;
    }
}

/// Multiplying a quotient back by the divisor stays below the dividend.
pub proof fn lemma_div_mul_le(a: int, b: int)
    requires
        a >= 0,
        b > 0,
    ensures
        (a / b) * b <= a,
{
    lemma_fundamental_div_mod(a, b);
    assert((a / b) * b == b * (a / b)) by (nonlinear_arith);
}

/// Truncating division of an exact multiple recovers the factor.
pub proof fn lemma_tdiv_exact(k: int, b: int)
    requires
        b > 0,
    ensures
        tdiv(k * b, b) == k,
{
    assert(absi(k * b) == absi(k) * b) by (nonlinear_arith)
        requires
            b > 0,
    ;
    assert((absi(k) * b) / b == absi(k)) by {
        vstd::arithmetic::div_mod::lemma_div_multiples_vanish(absi(k), b);
        assert(b * absi(k) == absi(k) * b) by (nonlinear_arith);
    }
    if k < 0 {
        assert(k * b < 0) by (nonlinear_arith)
            requires
                k < 0,
                b > 0,
        ;
    }
    if k > 0 {
        assert(k * b > 0) by (nonlinear_arith)
            requires
                k > 0,
                b > 0,
        ;
    }
}

/// Dividing a product a*c by something at least as large as |a| leaves at
/// most c.
pub proof fn lemma_tdiv_scaled_bound(a: int, b: int, c: int)
    requires
        b > 0,
        absi(a) <= b,
        c >= 0,
    ensures
        absi(tdiv(a * c, b)) <= c,
{
    lemma_mul_bound(a, c, b, c);
    lemma_tdiv_bound(a * c, b, b * c);
    assert((b * c) / b == c) by {
        vstd::arithmetic::div_mod::lemma_div_multiples_vanish(c, b);
    }
}

/// Integer square root, by bisection.
pub fn isqrt(n: u128) -> (r: u64)
    requires
        n < 0x40000000000000000000000000000000u128,
    ensures
        r as int == isqrt_s(n as int),
        is_isqrt(n as int, r as int),
{
    let mut lo: u64 = 0;
    let mut hi: u64 = 0x8000000000000000;
    proof {
        assert((hi as int) * (hi as int) == 0x40000000000000000000000000000000int);
    }
    while lo + 1 < hi
        invariant
            lo < hi,
            hi <= 0x8000000000000000u64,
            (lo as int) * (lo as int) <= n as int,
            (n as int) < (hi as int) * (hi as int),
        decreases hi - lo,
    {
        let mid: u64 = lo + (hi - lo) / 2;
        assert(lo < mid < hi);
        proof {
            assert((mid as int) * (mid as int) < 0x40000000000000000000000000000000int)
                by (nonlinear_arith)
                requires
                    0 <= (mid as int) && (mid as int) < 0x8000000000000000int,
            ;
        }
        let sq: u128 = (mid as u128) * (mid as u128);
        if sq <= n {
            lo = mid;
        } else {
            hi = mid;
        }
    }
    proof {
        assert(is_isqrt(n as int, lo as int));
        lemma_isqrt_unique(n as int, lo as int);
    }
    lo
}

/// Truncating division on wide integers.
pub fn tdiv128(a: i128, b: i128) -> (q: i128)
    requires
        b != 0,
        a > i128::MIN,
        b > i128::MIN,
    ensures
        q == tdiv(a as int, b as int),
{
    let ua: u128 = if a >= 0 {
        a as u128
    } else {
        (-a) as u128
    };
    let ub: u128 = if b >= 0 {
        b as u128
    } else {
        (-b) as u128
    };
    let uq: u128 = ua / ub;
    assert(ua as int == absi(a as int));
    assert(ub as int == absi(b as int));
    assert(uq as int <= ua as int) by {
        lemma_tdiv_bound(ua as int, ub as int, ua as int);
    }
    if (a >= 0) == (b >= 0) {
        uq as i128
    } else {
        -(uq as i128)
    }
}

/// Fixed-point product of two raw scalars.
pub fn fmul64(a: i64, b: i64) -> (r: i64)
    requires
        i64::MIN < fmul(a as int, b as int) <= i64::MAX,
    ensures
        r as int == fmul(a as int, b as int),
{
    proof {
        lemma_mul_bound(a as int, b as int, 0x8000000000000000int, 0x8000000000000000int);
    }
    let p: i128 = (a as i128) * (b as i128);
    let q: i128 = tdiv128(p, FRAC as i128);
    q as i64
}

/// Fixed-point quotient of two raw scalars.
pub fn fdiv64(a: i64, b: i64) -> (r: i64)
    requires
        b != 0,
        i64::MIN < fdiv(a as int, b as int) <= i64::MAX,
    ensures
        r as int == fdiv(a as int, b as int),
{
    proof {
        lemma_mul_bound(a as int, FRAC as int, 0x8000000000000000int, 0x10000int);
    }
    let p: i128 = (a as i128) * (FRAC as i128);
    let q: i128 = tdiv128(p, b as i128);
    q as i64
}

} // verus!
