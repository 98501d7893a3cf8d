//! Laws of the library: properties of the model that hold across functions,
//! stated over the same spec functions the executable contracts use.

use vstd::prelude::*;
use crate::fx::{FRAC, absi, tdiv, fmul, maxi, isqrt_s, lemma_isqrt, lemma_isqrt_of_square,
    lemma_isqrt_ordered, lemma_isqrt_lt, lemma_tdiv_rem, lemma_mul_bound};
use crate::vec3::{V3, v3, bv, s_add, s_sub, s_scale, s_dot, s_norm, s_normalise, s_sq, s_reflect,
    lemma_norm_dominates_components};
use crate::light::Light;
use crate::sphere::Sphere;
use crate::scene::{s_best, s_scene_hit, s_plane_applies, s_sphere_record,
    lemma_best_characterises};
use crate::shade::{s_light_fold, s_shadowed, s_light_dir, s_diffuse_term, s_specular_term};
use crate::render::{s_render_pixel, s_gradient, s_cam_raw};

verus! {

/// Normalising a vector of length at least a sixteenth of a unit yields a
/// vector of unit length, up to truncation noise: its raw norm lands within
/// [FRAC - 4, FRAC + 26], a relative error below one part in two thousand.
/// Vectors shorter than the floor (such as (1, 1, 0) raw) genuinely
/// normalise poorly, because the integer square root of a tiny sum of
/// squares carries a large relative error.
pub proof fn lemma_normalise_unit(a: V3)
    requires
        bv(a, 0x4000000000),
        s_norm(a) >= 4096,
    ensures
        FRAC - 4 <= s_norm(s_normalise(a)) <= FRAC + 26,
{
    let f = FRAC as int;
    let sq = s_sq(a);
    let n = s_norm(a);
    assert(a.x * a.x >= 0 && a.y * a.y >= 0 && a.z * a.z >= 0) by (nonlinear_arith);
    lemma_isqrt(sq);
    lemma_norm_dominates_components(a);
    let r = s_normalise(a);
    lemma_tdiv_rem(a.x * f, n);
    lemma_tdiv_rem(a.y * f, n);
    lemma_tdiv_rem(a.z * f, n);
    let ex = a.x * f - n * r.x;
    let ey = a.y * f - n * r.y;
    let ez = a.z * f - n * r.z;
    assert(absi(ex) < n && absi(ey) < n && absi(ez) < n);
    let t = r.x * r.x + r.y * r.y + r.z * r.z;
    // Expand the squared components against the exact quotient identity.
    assert((n * r.x) * (n * r.x) == (a.x * f) * (a.x * f) - 2 * (a.x * f) * ex + ex * ex)
        by (nonlinear_arith)
        requires
            n * r.x == a.x * f - ex,
    ;
    assert((n * r.y) * (n * r.y) == (a.y * f) * (a.y * f) - 2 * (a.y * f) * ey + ey * ey)
        by (nonlinear_arith)
        requires
            n * r.y == a.y * f - ey,
    ;
    assert((n * r.z) * (n * r.z) == (a.z * f) * (a.z * f) - 2 * (a.z * f) * ez + ez * ez)
        by (nonlinear_arith)
        requires
            n * r.z == a.z * f - ez,
    ;
    let sae = a.x * ex + a.y * ey + a.z * ez;
    let see = ex * ex + ey * ey + ez * ez;
    assert((n * n) * (r.x * r.x) == (n * r.x) * (n * r.x)) by (nonlinear_arith);
    assert((n * n) * (r.y * r.y) == (n * r.y) * (n * r.y)) by (nonlinear_arith);
    assert((n * n) * (r.z * r.z) == (n * r.z) * (n * r.z)) by (nonlinear_arith);
    assert((n * n) * t == (n * n) * (r.x * r.x) + (n * n) * (r.y * r.y) + (n * n) * (r.z * r.z))
        by (nonlinear_arith)
        requires
            t == r.x * r.x + r.y * r.y + r.z * r.z,
    ;
    assert((a.x * f) * (a.x * f) == (f * f) * (a.x * a.x)) by (nonlinear_arith);
    assert((a.y * f) * (a.y * f) == (f * f) * (a.y * a.y)) by (nonlinear_arith);
    assert((a.z * f) * (a.z * f) == (f * f) * (a.z * a.z)) by (nonlinear_arith);
    assert((f * f) * sq == (f * f) * (a.x * a.x) + (f * f) * (a.y * a.y) + (f * f) * (a.z * a.z))
        by (nonlinear_arith)
        requires
            sq == a.x * a.x + a.y * a.y + a.z * a.z,
    ;
    assert(2 * (a.x * f) * ex == 2 * f * (a.x * ex)) by (nonlinear_arith);
    assert(2 * (a.y * f) * ey == 2 * f * (a.y * ey)) by (nonlinear_arith);
    assert(2 * (a.z * f) * ez == 2 * f * (a.z * ez)) by (nonlinear_arith);
    assert(2 * f * (a.x * ex) + 2 * f * (a.y * ey) + 2 * f * (a.z * ez) == 2 * f * sae)
        by (nonlinear_arith)
        requires
            sae == a.x * ex + a.y * ey + a.z * ez,
    ;
    assert((n * n) * t == (f * f) * sq - 2 * f * sae + see);
    lemma_mul_bound(a.x, ex, n, n);
    lemma_mul_bound(a.y, ey, n, n);
    lemma_mul_bound(a.z, ez, n, n);
    lemma_mul_bound(ex, ex, n, n);
    lemma_mul_bound(ey, ey, n, n);
    lemma_mul_bound(ez, ez, n, n);
    assert(absi(sae) <= 3 * (n * n));
    assert(0 <= see <= 3 * (n * n)) by (nonlinear_arith)
        requires
            see == ex * ex + ey * ey + ez * ez,
            absi(ex * ex) <= n * n,
            absi(ey * ey) <= n * n,
            absi(ez * ez) <= n * n,
    ;
    // Lower bound: sq >= n*n gives t >= f*f - 6*f.
    assert((f * f) * sq >= (f * f) * (n * n)) by (nonlinear_arith)
        requires
            sq >= n * n,
    ;
    assert(2 * f * sae <= (6 * f) * (n * n)) by (nonlinear_arith)
        requires
            sae <= 3 * (n * n),
            f > 0,
    ;
    assert((n * n) * t >= (f * f) * (n * n) - (6 * f) * (n * n));
    assert(t >= f * f - 6 * f) by (nonlinear_arith)
        requires
            (n * n) * t >= (f * f) * (n * n) - (6 * f) * (n * n),
            n >= 1,
    ;
    // Upper bound: sq < (n+1)^2 and n >= f/16 give t <= f*f + 54*f + 3.
    assert((f * f) * sq <= (f * f) * (n * n) + (48 * f) * (n * n)) by (nonlinear_arith)
        requires
            sq < (n + 1) * (n + 1),
            n >= 4096,
            f == 65536,
    ;
    assert(-(2 * f * sae) <= (6 * f) * (n * n)) by (nonlinear_arith)
        requires
            -sae <= 3 * (n * n),
            f > 0,
    ;
    assert(see <= 3 * (n * n));
    assert(3 * (n * n) <= (3 * f) * (n * n)) by (nonlinear_arith)
        requires
            f >= 1,
            n * n >= 0,
    ;
    assert((n * n) * t <= (f * f + 54 * f + 3) * (n * n)) by (nonlinear_arith)
        requires
            (n * n) * t <= (f * f) * (n * n) + (48 * f) * (n * n) + (6 * f) * (n * n) + 3 * (n * n),
            f >= 1,
            n * n >= 0,
    ;
    assert(t <= f * f + 54 * f + 3) by (nonlinear_arith)
        requires
            (n * n) * t <= (f * f + 54 * f + 3) * (n * n),
            n >= 1,
    ;
    // Pull the bounds through the integer square root.
    assert((f - 4) * (f - 4) <= t) by (nonlinear_arith)
        requires
            t >= f * f - 6 * f,
            f == 65536,
    ;
    lemma_isqrt_of_square(f - 4);
    lemma_isqrt_ordered((f - 4) * (f - 4), t);
    assert(t < (f + 27) * (f + 27)) by (nonlinear_arith)
        requires
            t <= f * f + 54 * f + 3,
            f == 65536,
    ;
    lemma_isqrt_lt(t, f + 27);
    assert(s_norm(r) == isqrt_s(t));
}

/// In exact arithmetic, reflection about a unit normal preserves the squared
/// length and flips the projection onto the normal. To stay within the
/// integers the reflected vector is represented scaled by FRAC^2:
/// R_i = FRAC^2 * v_i - 2 * (v . n) * n_i, the exact form the fixed-point
/// reflect approximates.
pub proof fn lemma_reflect_exact(v: V3, n: V3)
    requires
        n.x * n.x + n.y * n.y + n.z * n.z == (FRAC as int) * (FRAC as int),
    ensures
        ({
            let f2 = (FRAC as int) * (FRAC as int);
            let dvn = v.x * n.x + v.y * n.y + v.z * n.z;
            let rx = f2 * v.x - 2 * dvn * n.x;
            let ry = f2 * v.y - 2 * dvn * n.y;
            let rz = f2 * v.z - 2 * dvn * n.z;
            &&& rx * n.x + ry * n.y + rz * n.z == -(f2 * dvn)
            &&& rx * rx + ry * ry + rz * rz == (f2 * f2) * (v.x * v.x + v.y * v.y + v.z * v.z)
        }),
{
    let f2 = (FRAC as int) * (FRAC as int);
    let dvn = v.x * n.x + v.y * n.y + v.z * n.z;
    let rx = f2 * v.x - 2 * dvn * n.x;
    let ry = f2 * v.y - 2 * dvn * n.y;
    let rz = f2 * v.z - 2 * dvn * n.z;
    assert(rx * n.x == f2 * (v.x * n.x) - 2 * dvn * (n.x * n.x)) by (nonlinear_arith)
        requires
            rx == f2 * v.x - 2 * dvn * n.x,
    ;
    assert(ry * n.y == f2 * (v.y * n.y) - 2 * dvn * (n.y * n.y)) by (nonlinear_arith)
        requires
            ry == f2 * v.y - 2 * dvn * n.y,
    ;
    assert(rz * n.z == f2 * (v.z * n.z) - 2 * dvn * (n.z * n.z)) by (nonlinear_arith)
        requires
            rz == f2 * v.z - 2 * dvn * n.z,
    ;
    assert(f2 * (v.x * n.x) + f2 * (v.y * n.y) + f2 * (v.z * n.z) == f2 * dvn)
        by (nonlinear_arith)
        requires
            dvn == v.x * n.x + v.y * n.y + v.z * n.z,
    ;
    assert(2 * dvn * (n.x * n.x) + 2 * dvn * (n.y * n.y) + 2 * dvn * (n.z * n.z) == 2 * dvn * (n.x
        * n.x + n.y * n.y + n.z * n.z)) by (nonlinear_arith);
    assert(f2 * dvn - 2 * dvn * f2 == -(f2 * dvn)) by (nonlinear_arith);
    let ax = f2 * v.x;
    let bx = 2 * dvn * n.x;
    assert(rx * rx == ax * ax - 2 * (ax * bx) + bx * bx) by (nonlinear_arith)
        requires
            rx == ax - bx,
    ;
    assert(ax * ax == (f2 * f2) * (v.x * v.x)) by (nonlinear_arith)
        requires
            ax == f2 * v.x,
    ;
    assert(2 * (ax * bx) == (4 * f2 * dvn) * (v.x * n.x)) by (nonlinear_arith)
        requires
            ax == f2 * v.x,
            bx == 2 * dvn * n.x,
    ;
    assert(bx * bx == (4 * (dvn * dvn)) * (n.x * n.x)) by (nonlinear_arith)
        requires
            bx == 2 * dvn * n.x,
    ;
    assert(rx * rx == (f2 * f2) * (v.x * v.x) - (4 * f2 * dvn) * (v.x * n.x) + (4 * (dvn
        * dvn)) * (n.x * n.x));
    let ay = f2 * v.y;
    let by = 2 * dvn * n.y;
    assert(ry * ry == ay * ay - 2 * (ay * by) + by * by) by (nonlinear_arith)
        requires
            ry == ay - by,
    ;
    assert(ay * ay == (f2 * f2) * (v.y * v.y)) by (nonlinear_arith)
        requires
            ay == f2 * v.y,
    ;
    assert(2 * (ay * by) == (4 * f2 * dvn) * (v.y * n.y)) by (nonlinear_arith)
        requires
            ay == f2 * v.y,
            by == 2 * dvn * n.y,
    ;
    assert(by * by == (4 * (dvn * dvn)) * (n.y * n.y)) by (nonlinear_arith)
        requires
            by == 2 * dvn * n.y,
    ;
    assert(ry * ry == (f2 * f2) * (v.y * v.y) - (4 * f2 * dvn) * (v.y * n.y) + (4 * (dvn
        * dvn)) * (n.y * n.y));
    let az = f2 * v.z;
    let bz = 2 * dvn * n.z;
    assert(rz * rz == az * az - 2 * (az * bz) + bz * bz) by (nonlinear_arith)
        requires
            rz == az - bz,
    ;
    assert(az * az == (f2 * f2) * (v.z * v.z)) by (nonlinear_arith)
        requires
            az == f2 * v.z,
    ;
    assert(2 * (az * bz) == (4 * f2 * dvn) * (v.z * n.z)) by (nonlinear_arith)
        requires
            az == f2 * v.z,
            bz == 2 * dvn * n.z,
    ;
    assert(bz * bz == (4 * (dvn * dvn)) * (n.z * n.z)) by (nonlinear_arith)
        requires
            bz == 2 * dvn * n.z,
    ;
    assert(rz * rz == (f2 * f2) * (v.z * v.z) - (4 * f2 * dvn) * (v.z * n.z) + (4 * (dvn
        * dvn)) * (n.z * n.z));

    assert((f2 * f2) * (v.x * v.x) + (f2 * f2) * (v.y * v.y) + (f2 * f2) * (v.z * v.z) == (f2 * f2)
        * (v.x * v.x + v.y * v.y + v.z * v.z)) by (nonlinear_arith);
    assert((4 * f2 * dvn) * (v.x * n.x) + (4 * f2 * dvn) * (v.y * n.y) + (4 * f2 * dvn) * (v.z
        * n.z) == (4 * f2 * dvn) * dvn) by (nonlinear_arith)
        requires
            dvn == v.x * n.x + v.y * n.y + v.z * n.z,
    ;
    assert((4 * (dvn * dvn)) * (n.x * n.x) + (4 * (dvn * dvn)) * (n.y * n.y) + (4 * (dvn * dvn))
        * (n.z * n.z) == (4 * (dvn * dvn)) * (n.x * n.x + n.y * n.y + n.z * n.z))
        by (nonlinear_arith);
    assert((4 * (dvn * dvn)) * f2 == (4 * f2 * dvn) * dvn) by (nonlinear_arith);
}


/// At the fixed-point level, reflecting about an exactly unit normal flips
/// the projection onto the normal up to truncation noise: the two raw dot
/// products sum to at most five raw units (under one ten-thousandth of a
/// unit), for any vector v.
pub proof fn lemma_reflect_dot_flips(v: V3, n: V3)
    requires
        n.x * n.x + n.y * n.y + n.z * n.z == (FRAC as int) * (FRAC as int),
    ensures
        absi(s_dot(s_reflect(v, n), n) + s_dot(v, n)) <= 5,
{
    let f = FRAC as int;
    let svn = v.x * n.x + v.y * n.y + v.z * n.z;
    let dv = s_dot(v, n);
    lemma_tdiv_rem(svn, f);
    let p0 = svn - f * dv;
    crate::vec3::lemma_scale_double(n);
    let tx = fmul(2 * n.x, dv);
    let ty = fmul(2 * n.y, dv);
    let tz = fmul(2 * n.z, dv);
    lemma_tdiv_rem((2 * n.x) * dv, f);
    lemma_tdiv_rem((2 * n.y) * dv, f);
    lemma_tdiv_rem((2 * n.z) * dv, f);
    let px = (2 * n.x) * dv - f * tx;
    let py = (2 * n.y) * dv - f * ty;
    let pz = (2 * n.z) * dv - f * tz;
    let r = s_reflect(v, n);
    assert(r.x == v.x - tx && r.y == v.y - ty && r.z == v.z - tz);
    let a = r.x * n.x + r.y * n.y + r.z * n.z;
    let e = s_dot(r, n);
    lemma_tdiv_rem(a, f);
    let p3 = a - f * e;
    // The normal's components are unit-bounded.
    assert(absi(n.x) <= f && absi(n.y) <= f && absi(n.z) <= f) by (nonlinear_arith)
        requires
            n.x * n.x + n.y * n.y + n.z * n.z == f * f,
            f > 0,
    ;
    // Expand a = sum v*n - sum t*n componentwise.
    assert(r.x * n.x == v.x * n.x - tx * n.x) by (nonlinear_arith)
        requires
            r.x == v.x - tx,
    ;
    assert(r.y * n.y == v.y * n.y - ty * n.y) by (nonlinear_arith)
        requires
            r.y == v.y - ty,
    ;
    assert(r.z * n.z == v.z * n.z - tz * n.z) by (nonlinear_arith)
        requires
            r.z == v.z - tz,
    ;
    let stn = tx * n.x + ty * n.y + tz * n.z;
    assert(a == svn - stn);
    // f times the t-projection: 2*dv*(n.n) minus the rounding residues.
    assert(f * (tx * n.x) == 2 * dv * (n.x * n.x) - px * n.x) by (nonlinear_arith)
        requires
            f * tx == (2 * n.x) * dv - px,
    ;
    assert(f * (ty * n.y) == 2 * dv * (n.y * n.y) - py * n.y) by (nonlinear_arith)
        requires
            f * ty == (2 * n.y) * dv - py,
    ;
    assert(f * (tz * n.z) == 2 * dv * (n.z * n.z) - pz * n.z) by (nonlinear_arith)
        requires
            f * tz == (2 * n.z) * dv - pz,
    ;
    let spn = px * n.x + py * n.y + pz * n.z;
    assert(f * stn == 2 * dv * (n.x * n.x) + 2 * dv * (n.y * n.y) + 2 * dv * (n.z * n.z) - spn)
        by (nonlinear_arith)
        requires
            stn == tx * n.x + ty * n.y + tz * n.z,
            f * (tx * n.x) == 2 * dv * (n.x * n.x) - px * n.x,
            f * (ty * n.y) == 2 * dv * (n.y * n.y) - py * n.y,
            f * (tz * n.z) == 2 * dv * (n.z * n.z) - pz * n.z,
            spn == px * n.x + py * n.y + pz * n.z,
    ;
    assert(2 * dv * (n.x * n.x) + 2 * dv * (n.y * n.y) + 2 * dv * (n.z * n.z) == 2 * dv * (f * f))
        by (nonlinear_arith)
        requires
            n.x * n.x + n.y * n.y + n.z * n.z == f * f,
    ;
    // Combine: f*f*(e + dv) is a sum of three small residues.
    assert(f * a == f * svn - (2 * dv * (f * f) - spn)) by (nonlinear_arith)
        requires
            a == svn - stn,
            f * stn == 2 * dv * (f * f) - spn,
    ;
    assert(f * svn == (f * f) * dv + f * p0) by (nonlinear_arith)
        requires
            svn == f * dv + p0,
    ;
    assert((f * f) * e == f * a - f * p3) by (nonlinear_arith)
        requires
            f * e == a - p3,
    ;
    assert(2 * dv * (f * f) == 2 * ((f * f) * dv)) by (nonlinear_arith);
    assert((f * f) * (e + dv) == f * p0 + spn - f * p3) by (nonlinear_arith)
        requires
            (f * f) * e == f * svn - 2 * ((f * f) * dv) + spn - f * p3,
            f * svn == (f * f) * dv + f * p0,
    ;
    // Each residue is below one raw unit of the scale.
    lemma_mul_bound(px, n.x, f, f);
    lemma_mul_bound(py, n.y, f, f);
    lemma_mul_bound(pz, n.z, f, f);
    assert(absi(spn) <= 3 * (f * f));
    assert(absi(f * p0) <= f * f) by (nonlinear_arith)
        requires
            absi(p0) < f,
            f > 0,
    ;
    assert(absi(f * p3) <= f * f) by (nonlinear_arith)
        requires
            absi(p3) < f,
            f > 0,
    ;
    assert(absi((f * f) * (e + dv)) <= 5 * (f * f));
    assert(absi(e + dv) <= 5) by (nonlinear_arith)
        requires
            absi((f * f) * (e + dv)) <= 5 * (f * f),
            f > 0,
    ;
}

/// Resolver tie-break: when two spheres both lie on the ray and the plane is
/// out of play, the record returned is the nearest hit: its distance is at
/// most the nearer sphere's and strictly below the farther sphere's.
pub proof fn lemma_nearer_sphere_wins(spheres: Seq<Sphere>, o: V3, d: V3, i: int, j: int)
    requires
        0 <= i < spheres.len(),
        0 <= j < spheres.len(),
        spheres[i].hits(o, d),
        spheres[j].hits(o, d),
        spheres[i].hit_t(o, d) < spheres[j].hit_t(o, d),
        !s_plane_applies(o, d, s_best(spheres, o, d, spheres.len())),
    ensures
        s_best(spheres, o, d, spheres.len()) matches Some(p) && 0 <= p.1 <= spheres[i].hit_t(o, d)
            && p.1 < spheres[j].hit_t(o, d),
        s_scene_hit(spheres, o, d) matches Some(sh) && sh.point == s_add(
            o,
            s_scale(d, s_best(spheres, o, d, spheres.len())->Some_0.1),
        ),
{
    lemma_best_characterises(spheres, o, d, spheres.len());
}

/// An occluded light contributes nothing: the accumulated intensities are
/// unchanged at its step of the fold.
pub proof fn lemma_shadowed_contributes_nothing(
    spheres: Seq<Sphere>,
    lights: Seq<Light>,
    n: nat,
    point: V3,
    nrm: V3,
    d: V3,
    e: nat,
)
    requires
        0 < n <= lights.len(),
        s_shadowed(spheres, point, nrm, lights[n - 1]),
    ensures
        s_light_fold(spheres, lights, n, point, nrm, d, e) == s_light_fold(
            spheres,
            lights,
            (n - 1) as nat,
            point,
            nrm,
            d,
            e,
        ),
{
}

/// An unoccluded light adds exactly its intensity times the nonnegative
/// cosine at the surface to the diffuse intensity, and its specular term to
/// the specular intensity.
pub proof fn lemma_unoccluded_light_contribution(
    spheres: Seq<Sphere>,
    lights: Seq<Light>,
    n: nat,
    point: V3,
    nrm: V3,
    d: V3,
    e: nat,
)
    requires
        0 < n <= lights.len(),
        !s_shadowed(spheres, point, nrm, lights[n - 1]),
    ensures
        s_light_fold(spheres, lights, n, point, nrm, d, e).0 == s_light_fold(
            spheres,
            lights,
            (n - 1) as nat,
            point,
            nrm,
            d,
            e,
        ).0 + fmul(
            lights[n - 1].intensity as int,
            maxi(0, s_dot(s_light_dir(lights[n - 1], point), nrm)),
        ),
        s_light_fold(spheres, lights, n, point, nrm, d, e).1 == s_light_fold(
            spheres,
            lights,
            (n - 1) as nat,
            point,
            nrm,
            d,
            e,
        ).1 + s_specular_term(lights[n - 1], point, nrm, d, e),
{
    assert(s_diffuse_term(lights[n - 1], point, nrm) == fmul(
        lights[n - 1].intensity as int,
        maxi(0, s_dot(s_light_dir(lights[n - 1], point), nrm)),
    ));
}

/// A pixel whose primary ray escapes the scene keeps the precomputed
/// background gradient, with no shading applied.
pub proof fn lemma_miss_keeps_gradient(
    spheres: Seq<Sphere>,
    lights: Seq<Light>,
    w: int,
    h: int,
    j: int,
    i: int,
)
    requires
        crate::shade::s_cast(
            spheres,
            lights,
            v3(0, 0, 0),
            s_normalise(s_cam_raw(w, h, j, i)),
            0,
        ) is None,
    ensures
        s_render_pixel(spheres, lights, w, h, j, i) == s_gradient(w, h, j, i),
{
}

} // verus!
