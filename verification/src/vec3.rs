//! Three-component fixed-point vectors.
//!
//! Each component is an `i64` raw value standing for the real number
//! `raw / FRAC`. The same type serves as a point, a direction, and a colour.
//! The spec functions `s_*` over the ghost view `V3` are the exact
//! mathematical model of every operation; each executable method ensures it
//! returns exactly its model's value.

use vstd::prelude::*;
use crate::fx::{FRAC, absi, tdiv, fmul, fdiv, isqrt_s, is_isqrt, isqrt, tdiv128, fmul64, fdiv64};
use crate::fx::{lemma_isqrt, lemma_isqrt_unique, lemma_isqrt_ordered, lemma_isqrt_of_square,
    lemma_isqrt_lt, lemma_tdiv_bound, lemma_mul_bound, lemma_tdiv_scaled_bound};

verus! {

/// A vector of raw fixed-point scalars.
#[derive(Clone, Copy, Debug, PartialEq, Eq, Structural)]
pub struct Vec3 {
    pub x: i64,
    pub y: i64,
    pub z: i64,
}

/// The mathematical view of a vector: unbounded integer raw components.
pub ghost struct V3 {
    pub x: int,
    pub y: int,
    pub z: int,
}

impl View for Vec3 {
    type V = V3;

    open spec fn view(&self) -> V3 {
        V3 { x: self.x as int, y: self.y as int, z: self.z as int }
    }
}

pub open spec fn v3(x: int, y: int, z: int) -> V3 {
    V3 { x, y, z }
}

/// Every component is at most m in magnitude.
pub open spec fn bv(a: V3, m: int) -> bool {
    absi(a.x) <= m && absi(a.y) <= m && absi(a.z) <= m
}

/// n is representable as an i64.
pub open spec fn in64(n: int) -> bool {
    -0x7fffffffffffffff <= n <= 0x7fffffffffffffff
}

pub open spec fn v_in64(a: V3) -> bool {
    in64(a.x) && in64(a.y) && in64(a.z)
}

pub open spec fn s_add(a: V3, b: V3) -> V3 {
    v3(a.x + b.x, a.y + b.y, a.z + b.z)
}

pub open spec fn s_sub(a: V3, b: V3) -> V3 {
    v3(a.x - b.x, a.y - b.y, a.z - b.z)
}

pub open spec fn s_neg(a: V3) -> V3 {
    v3(-a.x, -a.y, -a.z)
}

/// Scalar broadcast addition.
pub open spec fn s_adds(a: V3, s: int) -> V3 {
    v3(a.x + s, a.y + s, a.z + s)
}

/// Componentwise fixed-point scaling.
pub open spec fn s_scale(a: V3, s: int) -> V3 {
    v3(fmul(a.x, s), fmul(a.y, s), fmul(a.z, s))
}

/// Dot product: the full integer sum of products, scaled down once.
pub open spec fn s_dot(a: V3, b: V3) -> int {
    tdiv(a.x * b.x + a.y * b.y + a.z * b.z, FRAC as int)
}

/// Unscaled sum of squared raw components (FRAC^2 times the squared real
/// length).
pub open spec fn s_sq(a: V3) -> int {
    a.x * a.x + a.y * a.y + a.z * a.z
}

/// Euclidean length, as a raw scalar: the integer square root of s_sq.
pub open spec fn s_norm(a: V3) -> int {
    isqrt_s(s_sq(a))
}

/// The unit vector with a's direction: each component is a.i * FRAC / |a|.
pub open spec fn s_normalise(a: V3) -> V3
    recommends
        a != v3(0, 0, 0),
{
    v3(
        tdiv(a.x * (FRAC as int), s_norm(a)),
        tdiv(a.y * (FRAC as int), s_norm(a)),
        tdiv(a.z * (FRAC as int), s_norm(a)),
    )
}

/// The unit vector with a's direction, or the zero vector for the zero
/// vector, which has no direction.
pub open spec fn s_unit_or_zero(a: V3) -> V3 {
    if a == v3(0, 0, 0) {
        v3(0, 0, 0)
    } else {
        s_normalise(a)
    }
}

/// Mirror reflection of v about n: v - n*(2*dot(v,n)).
pub open spec fn s_reflect(v: V3, n: V3) -> V3 {
    s_sub(v, s_scale(s_scale(n, 2 * (FRAC as int)), s_dot(v, n)))
}

/// Floating-style remainder on one raw scalar: a minus b times the truncated
/// real quotient a/b.
pub open spec fn s_rem1(a: int, b: int) -> int
    recommends
        b != 0,
{
    a - b * tdiv(a, b)
}

/// Componentwise remainder.
pub open spec fn s_rem(a: V3, b: V3) -> V3 {
    v3(s_rem1(a.x, b.x), s_rem1(a.y, b.y), s_rem1(a.z, b.z))
}

/// Componentwise fixed-point division.
pub open spec fn s_vdiv(a: V3, b: V3) -> V3 {
    v3(fdiv(a.x, b.x), fdiv(a.y, b.y), fdiv(a.z, b.z))
}

/// Remainder on one scalar, exactly s_rem1.
fn rem1(a: i64, b: i64) -> (r: i64)
    requires
        b != 0,
    ensures
        r as int == s_rem1(a as int, b as int),
{
    let k: i128 = tdiv128(a as i128, b as i128);
    proof {
        crate::fx::lemma_tdiv_rem(a as int, if b >= 0 { b as int } else { -(b as int) });
        if b < 0 {
            assert(tdiv(a as int, b as int) == -tdiv(a as int, -(b as int)));
            assert((b as int) * tdiv(a as int, b as int) == (-(b as int)) * tdiv(
                a as int,
                -(b as int),
            )) by (nonlinear_arith);
        }
        assert(absi((b as int) * tdiv(a as int, b as int)) <= absi(a as int));
    }
    let bk: i128 = (b as i128) * k;
    let r: i128 = (a as i128) - bk;
    r as i64
}

impl Vec3 {
    pub fn new(x: i64, y: i64, z: i64) -> (r: Vec3)
        ensures
            r@ == v3(x as int, y as int, z as int),
    {
        Vec3 { x, y, z }
    }

    pub fn all(n: i64) -> (r: Vec3)
        ensures
            r@ == v3(n as int, n as int, n as int),
    {
        Vec3::new(n, n, n)
    }

    pub fn zero() -> (r: Vec3)
        ensures
            r@ == v3(0, 0, 0),
    {
        Vec3::all(0)
    }

    /// The vector of three whole units.
    pub fn one() -> (r: Vec3)
        ensures
            r@ == v3(FRAC as int, FRAC as int, FRAC as int),
    {
        Vec3::all(FRAC)
    }

    pub fn vadd(self, other: Vec3) -> (r: Vec3)
        requires
            v_in64(s_add(self@, other@)),
        ensures
            r@ == s_add(self@, other@),
    {
        Vec3 { x: self.x + other.x, y: self.y + other.y, z: self.z + other.z }
    }

    pub fn vsub(self, other: Vec3) -> (r: Vec3)
        requires
            v_in64(s_sub(self@, other@)),
        ensures
            r@ == s_sub(self@, other@),
    {
        Vec3 { x: self.x - other.x, y: self.y - other.y, z: self.z - other.z }
    }

    pub fn vneg(self) -> (r: Vec3)
        requires
            v_in64(s_neg(self@)),
        ensures
            r@ == s_neg(self@),
    {
        Vec3 { x: -self.x, y: -self.y, z: -self.z }
    }

    /// Dot product of two vectors, a raw scalar.
    pub fn dot(self, other: Vec3) -> (r: i64)
        requires
            bv(self@, 0x4000000000000000),
            bv(other@, 0x4000000000000000),
            in64(s_dot(self@, other@)),
        ensures
            r as int == s_dot(self@, other@),
    {
        proof {
            lemma_mul_bound(self@.x, other@.x, 0x4000000000000000, 0x4000000000000000);
            lemma_mul_bound(self@.y, other@.y, 0x4000000000000000, 0x4000000000000000);
            lemma_mul_bound(self@.z, other@.z, 0x4000000000000000, 0x4000000000000000);
        }
        let p: i128 = (self.x as i128) * (other.x as i128) + (self.y as i128) * (other.y as i128)
            + (self.z as i128) * (other.z as i128);
        let q: i128 = tdiv128(p, FRAC as i128);
        proof {
            lemma_tdiv_bound(p as int, FRAC as int, absi(p as int));
        }
        q as i64
    }

    /// Broadcast addition of a raw scalar to every component.
    pub fn add(&self, other: i64) -> (r: Vec3)
        requires
            v_in64(s_adds(self@, other as int)),
        ensures
            r@ == s_adds(self@, other as int),
    {
        Vec3 { x: self.x + other, y: self.y + other, z: self.z + other }
    }

    /// Componentwise scaling by a raw scalar.
    pub fn scale(&self, other: i64) -> (r: Vec3)
        requires
            v_in64(s_scale(self@, other as int)),
        ensures
            r@ == s_scale(self@, other as int),
    {
        Vec3 { x: fmul64(self.x, other), y: fmul64(self.y, other), z: fmul64(self.z, other) }
    }

    /// Componentwise remainder, as the floating remainder of the real values.
    pub fn rem(self, other: Vec3) -> (r: Vec3)
        requires
            other@.x != 0,
            other@.y != 0,
            other@.z != 0,
        ensures
            r@ == s_rem(self@, other@),
    {
        Vec3 { x: rem1(self.x, other.x), y: rem1(self.y, other.y), z: rem1(self.z, other.z) }
    }

    /// Componentwise fixed-point division.
    pub fn vdiv(self, other: Vec3) -> (r: Vec3)
        requires
            other@.x != 0,
            other@.y != 0,
            other@.z != 0,
            v_in64(s_vdiv(self@, other@)),
        ensures
            r@ == s_vdiv(self@, other@),
    {
        Vec3 { x: fdiv64(self.x, other.x), y: fdiv64(self.y, other.y), z: fdiv64(self.z, other.z) }
    }

    /// Euclidean length as a raw scalar.
    pub fn norm(&self) -> (r: i64)
        requires
            bv(self@, 0x1000000000000000),
        ensures
            r as int == s_norm(self@),
            0 <= r <= 0x2000000000000000,
            is_isqrt(s_sq(self@), r as int),
    {
        proof {
            lemma_mul_bound(self@.x, self@.x, 0x1000000000000000, 0x1000000000000000);
            lemma_mul_bound(self@.y, self@.y, 0x1000000000000000, 0x1000000000000000);
            lemma_mul_bound(self@.z, self@.z, 0x1000000000000000, 0x1000000000000000);
            assert(self@.x * self@.x >= 0) by (nonlinear_arith);
            assert(self@.y * self@.y >= 0) by (nonlinear_arith);
            assert(self@.z * self@.z >= 0) by (nonlinear_arith);
        }
        let p: i128 = (self.x as i128) * (self.x as i128) + (self.y as i128) * (self.y as i128)
            + (self.z as i128) * (self.z as i128);
        let r: u64 = isqrt(p as u128);
        proof {
            lemma_isqrt_lt(s_sq(self@), 0x2000000000000000int + 1);
        }
        r as i64
    }

    /// The unit vector with this vector's direction. The zero vector has no
    /// direction and is excluded by precondition.
    pub fn normalise(&self) -> (r: Vec3)
        requires
            bv(self@, 0x1000000000000000),
            self@ != v3(0, 0, 0),
        ensures
            r@ == s_normalise(self@),
            bv(r@, FRAC as int),
            s_norm(self@) >= 1,
    {
        let n = self.norm();
        proof {
            assert(self@.x * self@.x >= 0) by (nonlinear_arith);
            assert(self@.y * self@.y >= 0) by (nonlinear_arith);
            assert(self@.z * self@.z >= 0) by (nonlinear_arith);
            if s_sq(self@) == 0 {
                assert(self@.x * self@.x == 0);
                assert(self@.x == 0) by (nonlinear_arith)
                    requires
                        self@.x * self@.x == 0,
                ;
                assert(self@.y == 0) by (nonlinear_arith)
                    requires
                        self@.y * self@.y == 0,
                ;
                assert(self@.z == 0) by (nonlinear_arith)
                    requires
                        self@.z * self@.z == 0,
                ;
                assert(false);
            }
            assert(s_sq(self@) >= 1);
            assert(n as int >= 1) by (nonlinear_arith)
                requires
                    0 <= n as int,
                    s_sq(self@) < (n as int + 1) * (n as int + 1),
                    s_sq(self@) >= 1,
            ;
            lemma_norm_dominates_components(self@);
        }
        let rx: i128 = tdiv128((self.x as i128) * (FRAC as i128), n as i128);
        let ry: i128 = tdiv128((self.y as i128) * (FRAC as i128), n as i128);
        let rz: i128 = tdiv128((self.z as i128) * (FRAC as i128), n as i128);
        proof {
            lemma_tdiv_scaled_bound(self@.x, n as int, FRAC as int);
            lemma_tdiv_scaled_bound(self@.y, n as int, FRAC as int);
            lemma_tdiv_scaled_bound(self@.z, n as int, FRAC as int);
            assert(tdiv(self@.x * (FRAC as int), n as int) == tdiv((self@.x * FRAC) as int, n as int));
        }
        Vec3 { x: rx as i64, y: ry as i64, z: rz as i64 }
    }

    /// The unit vector with this vector's direction, total: the zero vector,
    /// which arises only when truncation collapses an offset entirely, is
    /// passed through unchanged.
    pub fn unit_or_zero(&self) -> (r: Vec3)
        requires
            bv(self@, 0x1000000000000000),
        ensures
            r@ == s_unit_or_zero(self@),
            bv(r@, FRAC as int),
    {
        if self.x == 0 && self.y == 0 && self.z == 0 {
            Vec3::zero()
        } else {
            self.normalise()
        }
    }

    /// Mirror reflection of this direction about the normal n.
    pub fn reflect(&self, n: Vec3) -> (r: Vec3)
        requires
            bv(self@, 0x1000000),
            bv(n@, 0x1000000),
        ensures
            r@ == s_reflect(self@, n@),
            bv(r@, 0x200000000000),
    {
        proof {
            lemma_mul_bound(self@.x, n@.x, 0x1000000, 0x1000000);
            lemma_mul_bound(self@.y, n@.y, 0x1000000, 0x1000000);
            lemma_mul_bound(self@.z, n@.z, 0x1000000, 0x1000000);
            lemma_tdiv_bound(
                self@.x * n@.x + self@.y * n@.y + self@.z * n@.z,
                FRAC as int,
                0x3000000000000,
            );
        }
        proof {
            lemma_scale_double(n@);
        }
        let d = self.dot(n);
        let n2 = n.scale(2 * FRAC);
        proof {
            crate::fx::lemma_fmul_bound(n2@.x, d as int, 0x2000000, 0x300000000);
            crate::fx::lemma_fmul_bound(n2@.y, d as int, 0x2000000, 0x300000000);
            crate::fx::lemma_fmul_bound(n2@.z, d as int, 0x2000000, 0x300000000);
        }
        let nd = n2.scale(d);
        self.vsub_ref(nd)
    }

    /// vsub on a borrowed receiver, used by reflect.
    fn vsub_ref(&self, other: Vec3) -> (r: Vec3)
        requires
            v_in64(s_sub(self@, other@)),
        ensures
            r@ == s_sub(self@, other@),
    {
        Vec3 { x: self.x - other.x, y: self.y - other.y, z: self.z - other.z }
    }
}

/// The dot product of bounded vectors is bounded by three times the product
/// of the bounds, scaled down.
pub proof fn lemma_dot_bound(a: V3, b: V3, ma: int, mb: int)
    requires
        bv(a, ma),
        bv(b, mb),
        0 <= ma,
        0 <= mb,
    ensures
        absi(s_dot(a, b)) <= (3 * (ma * mb)) / (FRAC as int),
{
    crate::fx::lemma_mul_bound(a.x, b.x, ma, mb);
    crate::fx::lemma_mul_bound(a.y, b.y, ma, mb);
    crate::fx::lemma_mul_bound(a.z, b.z, ma, mb);
    lemma_tdiv_bound(a.x * b.x + a.y * b.y + a.z * b.z, FRAC as int, 3 * (ma * mb));
}

/// A direction produced by s_unit_or_zero never exceeds one whole unit per
/// component.
pub proof fn lemma_unit_or_zero_bound(a: V3)
    ensures
        bv(s_unit_or_zero(a), FRAC as int),
{
    if a == v3(0, 0, 0) {
    } else {
        lemma_norm_dominates_components(a);
        let n = s_norm(a);
        if a.x != 0 {
            assert(n >= 1);
        } else if a.y != 0 {
            assert(n >= 1);
        } else {
            assert(a.z != 0);
            assert(n >= 1);
        }
        lemma_tdiv_scaled_bound(a.x, n, FRAC as int);
        lemma_tdiv_scaled_bound(a.y, n, FRAC as int);
        lemma_tdiv_scaled_bound(a.z, n, FRAC as int);
    }
}

/// A reflection of a bounded direction about a unit-bounded normal grows by
/// at most a factor of seven.
pub proof fn lemma_reflect_bound(a: V3, n: V3, m: int)
    requires
        bv(a, m),
        bv(n, FRAC as int),
        0 <= m <= 0x1000000,
    ensures
        bv(s_reflect(a, n), 7 * m),
{
    crate::fx::lemma_mul_bound(a.x, n.x, m, FRAC as int);
    crate::fx::lemma_mul_bound(a.y, n.y, m, FRAC as int);
    crate::fx::lemma_mul_bound(a.z, n.z, m, FRAC as int);
    crate::fx::lemma_tdiv_bound(a.x * n.x + a.y * n.y + a.z * n.z, FRAC as int, 3 * (m * (FRAC as int)));
    assert(3 * (m * (FRAC as int)) == (3 * m) * (FRAC as int)) by (nonlinear_arith);
    assert(((3 * m) * (FRAC as int)) / (FRAC as int) == 3 * m) by {
        vstd::arithmetic::div_mod::lemma_div_multiples_vanish(3 * m, FRAC as int);
        assert((FRAC as int) * (3 * m) == (3 * m) * (FRAC as int)) by (nonlinear_arith);
    }
    let d = s_dot(a, n);
    assert(absi(d) <= 3 * m);
    lemma_scale_double(n);
    let n2 = s_scale(n, 2 * (FRAC as int));
    crate::fx::lemma_fmul_bound(n2.x, d, 2 * (FRAC as int), 3 * m);
    crate::fx::lemma_fmul_bound(n2.y, d, 2 * (FRAC as int), 3 * m);
    crate::fx::lemma_fmul_bound(n2.z, d, 2 * (FRAC as int), 3 * m);
    assert((2 * (FRAC as int)) * (3 * m) == (6 * m) * (FRAC as int)) by (nonlinear_arith);
    assert(((6 * m) * (FRAC as int)) / (FRAC as int) == 6 * m) by {
        vstd::arithmetic::div_mod::lemma_div_multiples_vanish(6 * m, FRAC as int);
        assert((FRAC as int) * (6 * m) == (6 * m) * (FRAC as int)) by (nonlinear_arith);
    }
}

/// Scaling by two whole units doubles each component exactly.
pub proof fn lemma_scale_double(a: V3)
    ensures
        s_scale(a, 2 * (FRAC as int)) == v3(2 * a.x, 2 * a.y, 2 * a.z),
{
    assert(a.x * (2 * (FRAC as int)) == (2 * a.x) * (FRAC as int)) by (nonlinear_arith);
    assert(a.y * (2 * (FRAC as int)) == (2 * a.y) * (FRAC as int)) by (nonlinear_arith);
    assert(a.z * (2 * (FRAC as int)) == (2 * a.z) * (FRAC as int)) by (nonlinear_arith);
    crate::fx::lemma_tdiv_exact(2 * a.x, FRAC as int);
    crate::fx::lemma_tdiv_exact(2 * a.y, FRAC as int);
    crate::fx::lemma_tdiv_exact(2 * a.z, FRAC as int);
}

/// The length of a vector dominates each component's magnitude.
pub proof fn lemma_norm_dominates_components(a: V3)
    ensures
        s_norm(a) >= absi(a.x),
        s_norm(a) >= absi(a.y),
        s_norm(a) >= absi(a.z),
        s_norm(a) >= 0,
{
    assert(a.x * a.x == absi(a.x) * absi(a.x)) by (nonlinear_arith);
    assert(a.y * a.y == absi(a.y) * absi(a.y)) by (nonlinear_arith);
    assert(a.z * a.z == absi(a.z) * absi(a.z)) by (nonlinear_arith);
    assert(a.x * a.x >= 0 && a.y * a.y >= 0 && a.z * a.z >= 0) by (nonlinear_arith);
    lemma_isqrt_of_square(absi(a.x));
    lemma_isqrt_of_square(absi(a.y));
    lemma_isqrt_of_square(absi(a.z));
    lemma_isqrt_ordered(a.x * a.x, s_sq(a));
    lemma_isqrt_ordered(a.y * a.y, s_sq(a));
    lemma_isqrt_ordered(a.z * a.z, s_sq(a));
}

} // verus!
