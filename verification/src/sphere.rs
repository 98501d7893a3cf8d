//! Spheres and their ray-intersection test.

use vstd::prelude::*;
use crate::fx::{FRAC, absi, tdiv, fmul, isqrt_s, is_isqrt, isqrt, tdiv128, fmul64};
use crate::fx::{lemma_tdiv_bound, lemma_mul_bound, lemma_fmul_bound, lemma_isqrt_lt,
    lemma_isqrt};
use crate::vec3::{Vec3, V3, v3, bv, in64, s_sub, s_dot, v_in64};
use crate::material::{Material, wf_material};

verus! {

/// A sphere with its material.
#[derive(Clone, Copy, Debug)]
pub struct Sphere {
    pub centre: Vec3,
    pub radius: i64,
    pub material: Material,
}

/// Well-formed sphere: centre within the scene volume, positive bounded
/// radius, well-formed material.
pub open spec fn wf_sphere(s: Sphere) -> bool {
    &&& bv(s.centre@, 0x4000000)
    &&& 0 < s.radius <= 0x4000000
    &&& wf_material(s.material)
}

/// Projection of centre - orig onto the ray direction.
pub open spec fn s_tca(c: V3, o: V3, d: V3) -> int {
    s_dot(s_sub(c, o), d)
}

/// Squared distance from the centre to the ray (raw scale).
pub open spec fn s_d2(c: V3, o: V3, d: V3) -> int {
    s_dot(s_sub(c, o), s_sub(c, o)) - fmul(s_tca(c, o, d), s_tca(c, o, d))
}

/// Squared radius (raw scale).
pub open spec fn s_r2(r: int) -> int {
    fmul(r, r)
}

/// The ray passes within the radius, so intersection parameters exist.
pub open spec fn s_has_root(c: V3, r: int, o: V3, d: V3) -> bool {
    s_d2(c, o, d) <= s_r2(r)
}

/// Half-chord length: distance along the ray between the two intersections,
/// halved (raw scale).
pub open spec fn s_thc(c: V3, r: int, o: V3, d: V3) -> int {
    isqrt_s((s_r2(r) - s_d2(c, o, d)) * (FRAC as int))
}

/// The chosen intersection parameter: the near root unless it lies behind
/// the origin, else the far root.
pub open spec fn s_t0(c: V3, r: int, o: V3, d: V3) -> int {
    if s_tca(c, o, d) - s_thc(c, r, o, d) < 0 {
        s_tca(c, o, d) + s_thc(c, r, o, d)
    } else {
        s_tca(c, o, d) - s_thc(c, r, o, d)
    }
}

/// The ray hits the sphere: roots exist and the chosen one is not behind the
/// origin.
pub open spec fn s_ray_hit(c: V3, r: int, o: V3, d: V3) -> bool {
    s_has_root(c, r, o, d) && s_t0(c, r, o, d) >= 0
}

/// Magnitude bound on tca from bounds on the inputs.
pub proof fn lemma_tca_bound(c: V3, o: V3, d: V3, bo: int)
    requires
        bv(c, 0x4000000),
        bv(o, bo),
        bv(d, 0x80000),
        bo >= 0,
    ensures
        absi(s_tca(c, o, d)) <= 24 * (bo + 0x4000000),
{
    let l = s_sub(c, o);
    lemma_mul_bound(l.x, d.x, bo + 0x4000000, 0x80000);
    lemma_mul_bound(l.y, d.y, bo + 0x4000000, 0x80000);
    lemma_mul_bound(l.z, d.z, bo + 0x4000000, 0x80000);
    lemma_tdiv_bound(
        l.x * d.x + l.y * d.y + l.z * d.z,
        FRAC as int,
        3 * ((bo + 0x4000000) * 0x80000),
    );
    assert(3 * ((bo + 0x4000000) * 0x80000) / 0x10000 == 24 * (bo + 0x4000000))
        by (nonlinear_arith);
}

/// Magnitude bound on the chosen intersection parameter: at most 64 times
/// the reach of the inputs. The distance from the centre to the ray is not
/// necessarily nonnegative here, because the direction need not be a unit
/// vector, so the half-chord is bounded through the projection instead.
pub proof fn lemma_t0_bound(c: V3, r: int, o: V3, d: V3, bo: int)
    requires
        bv(c, 0x4000000),
        0 < r <= 0x4000000,
        bv(o, bo),
        bv(d, 0x80000),
        bo >= 0,
        s_has_root(c, r, o, d),
    ensures
        absi(s_t0(c, r, o, d)) <= 64 * (bo + 0x4000000),
        0 <= s_thc(c, r, o, d) <= 0x4000000 + 24 * (bo + 0x4000000),
{
    let b = bo + 0x4000000;
    lemma_tca_bound(c, o, d, bo);
    let tca = s_tca(c, o, d);
    let l = s_sub(c, o);
    let sum = l.x * l.x + l.y * l.y + l.z * l.z;
    assert(l.x * l.x >= 0 && l.y * l.y >= 0 && l.z * l.z >= 0) by (nonlinear_arith);
    assert(tdiv(sum, FRAC as int) >= 0) by {
        vstd::arithmetic::div_mod::lemma_div_pos_is_pos(sum, FRAC as int);
    }
    let fm = fmul(tca, tca);
    assert(tca * tca >= 0) by (nonlinear_arith);
    assert(fm >= 0) by {
        vstd::arithmetic::div_mod::lemma_div_pos_is_pos(tca * tca, FRAC as int);
    }
    lemma_mul_bound(tca, tca, 24 * b, 24 * b);
    crate::fx::lemma_tdiv_bound(tca * tca, FRAC as int, (24 * b) * (24 * b));
    assert(fm * (FRAC as int) <= (24 * b) * (24 * b)) by {
        crate::fx::lemma_div_mul_le((24 * b) * (24 * b), FRAC as int);
        assert(fm <= ((24 * b) * (24 * b)) / (FRAC as int));
        assert(fm * (FRAC as int) <= (((24 * b) * (24 * b)) / (FRAC as int)) * (FRAC as int))
            by (nonlinear_arith)
            requires
                fm <= ((24 * b) * (24 * b)) / (FRAC as int),
        ;
    }
    let diff = s_r2(r) - s_d2(c, o, d);
    assert(s_d2(c, o, d) >= -fm);
    assert(s_r2(r) <= 0x1000000000) by {
        lemma_fmul_bound(r, r, 0x4000000, 0x4000000);
    }
    assert(diff >= 0);
    assert(diff * (FRAC as int) <= 0x10000000000000 + (24 * b) * (24 * b)) by (nonlinear_arith)
        requires
            0 <= diff,
            diff <= 0x1000000000 + fm,
            fm * (FRAC as int) <= (24 * b) * (24 * b),
            fm >= 0,
    ;
    assert(0x10000000000000 + (24 * b) * (24 * b) < (0x4000000 + 24 * b) * (0x4000000 + 24 * b))
        by (nonlinear_arith)
        requires
            b >= 0x4000000,
    ;
    assert(diff * (FRAC as int) >= 0) by (nonlinear_arith)
        requires
            diff >= 0,
    ;
    lemma_isqrt_lt(diff * (FRAC as int), 0x4000000 + 24 * b);
    lemma_isqrt(diff * (FRAC as int));
}

impl Sphere {
    /// Ray-sphere intersection by the projected-distance method. The first
    /// result is whether the ray hits the sphere ahead of its origin; the
    /// second carries the chosen intersection parameter whenever roots exist,
    /// even a negative one (a root behind the origin).
    pub fn ray_intersect(&self, orig: Vec3, dir: Vec3) -> (r: (bool, Option<i64>))
        requires
            wf_sphere(*self),
            bv(orig@, 0x2000000000000),
            bv(dir@, 0x80000),
        ensures
            r.0 == s_ray_hit(self.centre@, self.radius as int, orig@, dir@),
            r.1 matches Some(t) <==> s_has_root(self.centre@, self.radius as int, orig@, dir@),
            (r.1 matches Some(t) ==> t as int == s_t0(self.centre@, self.radius as int, orig@, dir@)),
    {
        let ghost c = self.centre@;
        let ghost rr = self.radius as int;
        let ghost o = orig@;
        let ghost dd = dir@;
        let l: Vec3 = self.centre.vsub(orig);
        proof {
            lemma_tca_bound(c, o, dd, 0x2000000000000);
            lemma_mul_bound(l@.x, dd.x, 0x2000004000000, 0x80000);
            lemma_mul_bound(l@.y, dd.y, 0x2000004000000, 0x80000);
            lemma_mul_bound(l@.z, dd.z, 0x2000004000000, 0x80000);
        }
        let tca: i64 = l.dot(dir);
        proof {
            lemma_mul_bound(l@.x, l@.x, 0x2000004000000, 0x2000004000000);
            lemma_mul_bound(l@.y, l@.y, 0x2000004000000, 0x2000004000000);
            lemma_mul_bound(l@.z, l@.z, 0x2000004000000, 0x2000004000000);
        }
        let llp: i128 = (l.x as i128) * (l.x as i128) + (l.y as i128) * (l.y as i128) + (
        l.z as i128) * (l.z as i128);
        let ll: i128 = tdiv128(llp, FRAC as i128);
        proof {
            assert(ll == s_dot(l@, l@));
            lemma_mul_bound(tca as int, tca as int, 0x30000060000000, 0x30000060000000);
            lemma_tdiv_bound(llp as int, FRAC as int, absi(llp as int));
            lemma_tdiv_bound((tca as int) * (tca as int), FRAC as int, 0x30000060000000int * 0x30000060000000int);
        }
        let tt: i128 = tdiv128((tca as i128) * (tca as i128), FRAC as i128);
        proof {
            assert(tca * tca >= 0) by (nonlinear_arith);
            vstd::arithmetic::div_mod::lemma_div_pos_is_pos((tca as int) * (tca as int), FRAC as int);
            assert(l@.x * l@.x >= 0 && l@.y * l@.y >= 0 && l@.z * l@.z >= 0) by (nonlinear_arith);
            assert(llp >= 0);
            vstd::arithmetic::div_mod::lemma_div_pos_is_pos(llp as int, FRAC as int);
        }
        let d2: i128 = ll - tt;
        proof {
            assert(d2 == s_d2(c, o, dd));
            lemma_fmul_bound(rr, rr, 0x4000000, 0x4000000);
            assert(rr * rr >= 0) by (nonlinear_arith)
                requires
                    rr > 0,
            ;
        }
        let r2: i64 = fmul64(self.radius, self.radius);
        if d2 > r2 as i128 {
            (false, None)
        } else {
            let diff: i128 = (r2 as i128) - d2;
            proof {
                assert(0 <= diff);
                assert(diff <= 0x1000000000 + tt);
                assert(tt <= 0x10000000000000000000000000int);
                assert(diff * (FRAC as int) <= 0x100010000000000000000000000000int)
                    by (nonlinear_arith)
                    requires
                        0 <= diff <= 0x10001000000000000000000000int,
                ;
                assert(diff * (FRAC as int) >= 0) by (nonlinear_arith)
                    requires
                        diff >= 0,
                ;
            }
            let thc: u64 = isqrt((diff as u128) * (FRAC as u128));
            proof {
                lemma_isqrt_lt(diff * (FRAC as int), 0x4000000000000000int);
            }
            let thc: i64 = thc as i64;
            let t0: i64 = if tca - thc < 0 {
                tca + thc
            } else {
                tca - thc
            };
            proof {
                assert(t0 as int == s_t0(c, rr, o, dd));
            }
            if t0 < 0 {
                (false, Some(t0))
            } else {
                (true, Some(t0))
            }
        }
    }
}

} // verus!
