//! Recursive shading: Phong-style local illumination with hard shadows and
//! one mirror bounce.

use vstd::prelude::*;
use crate::fx::{FRAC, absi, tdiv, fmul, maxi, mini, fmul64, lemma_tdiv_bound, lemma_mul_bound,
    lemma_fmul_bound};
use crate::vec3::{Vec3, V3, v3, bv, in64, v_in64, s_add, s_sub, s_neg, s_scale, s_dot, s_norm,
    s_reflect, s_unit_or_zero, lemma_unit_or_zero_bound, lemma_reflect_bound, lemma_dot_bound};
use crate::material::{Material, wf_material};
use crate::light::{Light, wf_light};
use crate::sphere::Sphere;
use crate::scene::{scene_intersect, s_scene_hit, wf_spheres, lemma_scene_hit_bound};

verus! {

/// Raw offset applied along the normal to secondary ray origins, to avoid
/// immediate self-intersection (one thousandth of a unit, truncated).
pub const SHADE_EPS: i64 = 65;

/// The fixed background colour a reflection ray falls back to when it
/// escapes the scene: (0.4, 0.3, 0.5) in raw units, truncated.
pub open spec fn background() -> V3 {
    v3(26214, 19660, 32768)
}

/// The signed epsilon offset: towards the side the direction d points to.
pub open spec fn s_eps_sign(d: int) -> int {
    if d >= 0 {
        SHADE_EPS as int
    } else {
        -(SHADE_EPS as int)
    }
}

/// Fixed-point power by squaring. With a base of at most one unit the result
/// stays within one unit.
pub open spec fn s_fpow(b: int, e: nat) -> int
    decreases e,
{
    if e == 0 {
        FRAC as int
    } else if e % 2 == 0 {
        let h = s_fpow(b, e / 2);
        fmul(h, h)
    } else {
        fmul(b, s_fpow(b, (e - 1) as nat))
    }
}

/// Every light is well formed and there are at most 4096 of them.
pub open spec fn wf_lights(s: Seq<Light>) -> bool {
    s.len() <= 4096 && (forall|i: int| 0 <= i < s.len() ==> wf_light(#[trigger] s[i]))
}

/// Unit direction from the shaded point towards a light.
pub open spec fn s_light_dir(light: Light, point: V3) -> V3 {
    s_unit_or_zero(s_sub(light.position@, point))
}

/// Raw distance from the shaded point to a light.
pub open spec fn s_light_dist(light: Light, point: V3) -> int {
    s_norm(s_sub(light.position@, point))
}

/// Origin of a secondary ray: the shaded point nudged along the normal to
/// the side the ray leaves on.
pub open spec fn s_offset_orig(point: V3, nrm: V3, toward: V3) -> V3 {
    s_add(point, s_scale(nrm, s_eps_sign(s_dot(toward, nrm))))
}

/// The light is occluded: something stands strictly nearer than the light
/// along the shadow ray.
pub open spec fn s_shadowed(spheres: Seq<Sphere>, point: V3, nrm: V3, light: Light) -> bool {
    let ldir = s_light_dir(light, point);
    let so = s_offset_orig(point, nrm, ldir);
    match s_scene_hit(spheres, so, ldir) {
        Some(sh) => s_norm(s_sub(sh.point, so)) < s_light_dist(light, point),
        None => false,
    }
}

/// Diffuse contribution of one unoccluded light: intensity times the cosine
/// at the surface, floored at zero.
pub open spec fn s_diffuse_term(light: Light, point: V3, nrm: V3) -> int {
    fmul(light.intensity as int, maxi(0, s_dot(s_light_dir(light, point), nrm)))
}

/// The specular cosine: alignment of the light's mirror direction with the
/// viewing ray, floored at zero and capped at one unit (in exact arithmetic
/// the alignment of unit vectors never exceeds one; the cap only trims
/// truncation noise so the power stays within one unit).
pub open spec fn s_specular_base(light: Light, point: V3, nrm: V3, d: V3) -> int {
    mini(maxi(0, s_dot(s_neg(s_reflect(s_neg(s_light_dir(light, point)), nrm)), d)), FRAC as int)
}

/// Specular contribution of one unoccluded light.
pub open spec fn s_specular_term(light: Light, point: V3, nrm: V3, d: V3, e: nat) -> int {
    fmul(s_fpow(s_specular_base(light, point, nrm, d), e), light.intensity as int)
}

/// Accumulated diffuse and specular intensity over the first n lights,
/// skipping occluded ones entirely.
pub open spec fn s_light_fold(
    spheres: Seq<Sphere>,
    lights: Seq<Light>,
    n: nat,
    point: V3,
    nrm: V3,
    d: V3,
    e: nat,
) -> (int, int)
    decreases n,
{
    if n == 0 {
        (0, 0)
    } else {
        let prev = s_light_fold(spheres, lights, (n - 1) as nat, point, nrm, d, e);
        let light = lights[n - 1];
        if s_shadowed(spheres, point, nrm, light) {
            prev
        } else {
            (
                prev.0 + s_diffuse_term(light, point, nrm),
                prev.1 + s_specular_term(light, point, nrm, d, e),
            )
        }
    }
}

/// Reach allowed for a ray origin at each recursion depth.
pub open spec fn s_obound(depth: u32) -> int {
    if depth == 0 {
        0x20000000
    } else {
        0x8000000000
    }
}

/// Reach allowed for a ray direction at each recursion depth.
pub open spec fn s_dbound(depth: u32) -> int {
    if depth == 0 {
        0x10000
    } else {
        0x80000
    }
}

/// Bound on the colour a cast returns at each depth.
pub open spec fn s_cbound(depth: u32) -> int {
    if depth == 0 {
        0x8000000000000
    } else {
        0x400000000000
    }
}

/// The colour of a ray: the shading model applied at the nearest hit,
/// recursing once for the mirror term; nothing above the depth cutoff or
/// when the ray escapes the scene.
pub open spec fn s_cast(spheres: Seq<Sphere>, lights: Seq<Light>, o: V3, d: V3, depth: u32) -> Option<
    V3,
>
    decreases (if depth > 1 { 0int } else { 2int - depth }),
{
    if depth > 1 {
        None
    } else {
        match s_scene_hit(spheres, o, d) {
            None => None,
            Some(sh) => {
                let rdir = s_reflect(d, sh.normal);
                let rorig = s_offset_orig(sh.point, sh.normal, rdir);
                let rc = s_cast(spheres, lights, rorig, rdir, (depth + 1) as u32);
                let rcol = if rc is Some {
                    rc->Some_0
                } else {
                    background()
                };
                let m = sh.material;
                let f = s_light_fold(
                    spheres,
                    lights,
                    lights.len(),
                    sh.point,
                    sh.normal,
                    d,
                    m.specular_exponent as nat,
                );
                let sterm = fmul(f.1, m.albedo@.y);
                Some(
                    s_add(
                        s_add(
                            s_scale(s_scale(m.diffuse_colour@, f.0), m.albedo@.x),
                            v3(sterm, sterm, sterm),
                        ),
                        s_scale(rcol, m.albedo@.z),
                    ),
                )
            },
        }
    }
}

/// Fixed-point power by squaring, exactly s_fpow.
pub fn fpow(base: i64, e: u64) -> (r: i64)
    requires
        0 <= base <= FRAC,
    ensures
        r as int == s_fpow(base as int, e as nat),
        0 <= r <= FRAC,
    decreases e,
{
    if e == 0 {
        FRAC
    } else if e % 2 == 0 {
        let h = fpow(base, e / 2);
        proof {
            lemma_fmul_bound(h as int, h as int, FRAC as int, FRAC as int);
            assert((h as int) * (h as int) >= 0) by (nonlinear_arith);
            vstd::arithmetic::div_mod::lemma_div_pos_is_pos((h as int) * (h as int), FRAC as int);
        }
        fmul64(h, h)
    } else {
        let h = fpow(base, e - 1);
        proof {
            lemma_fmul_bound(base as int, h as int, FRAC as int, FRAC as int);
            assert((base as int) * (h as int) >= 0) by (nonlinear_arith)
                requires
                    base >= 0,
                    h >= 0,
            ;
            vstd::arithmetic::div_mod::lemma_div_pos_is_pos(
                (base as int) * (h as int),
                FRAC as int,
            );
        }
        fmul64(base, h)
    }
}

/// The colour seen along a ray, or nothing when the ray escapes the scene or
/// the recursion depth is exhausted. Exactly the model s_cast.
#[verifier::rlimit(100)]
pub fn cast_ray(
    orig: Vec3,
    dir: Vec3,
    spheres: &Vec<Sphere>,
    lights: &Vec<Light>,
    depth: u32,
) -> (r: Option<Vec3>)
    requires
        wf_spheres(spheres@),
        wf_lights(lights@),
        depth <= 1 ==> bv(orig@, s_obound(depth)) && bv(dir@, s_dbound(depth)),
    ensures
        match r {
            Some(c) => s_cast(spheres@, lights@, orig@, dir@, depth) == Some(c@) && bv(
                c@,
                s_cbound(depth),
            ),
            None => s_cast(spheres@, lights@, orig@, dir@, depth) is None,
        },
        depth > 1 ==> r is None,
    decreases (if depth > 1 { 0int } else { 2int - depth }),
{
    if depth > 1 {
        return None;
    }
    let ghost o = orig@;
    let ghost dd = dir@;
    proof {
        lemma_scene_hit_bound(spheres@, o, dd, s_obound(depth));
    }
    let res = scene_intersect(orig, dir, spheres);
    match res {
        None => None,
        Some((point, nrm, m)) => {
            let ghost sh = s_scene_hit(spheres@, o, dd)->Some_0;
            let ghost pb = 515 * (s_obound(depth) + 0x4000000);
            proof {
                lemma_reflect_bound(dd, nrm@, s_dbound(depth));
            }
            let rdir = dir.reflect(nrm);
            proof {
                lemma_dot_bound(rdir@, nrm@, 0x200000000000, 0x10000);
            }
            let rdn = rdir.dot(nrm);
            proof {
                lemma_fmul_bound(nrm@.x, s_eps_sign(rdn as int), FRAC as int, 65);
                lemma_fmul_bound(nrm@.y, s_eps_sign(rdn as int), FRAC as int, 65);
                lemma_fmul_bound(nrm@.z, s_eps_sign(rdn as int), FRAC as int, 65);
            }
            let eps: i64 = if rdn >= 0 {
                SHADE_EPS
            } else {
                -SHADE_EPS
            };
            let rorig = point.vadd(nrm.scale(eps));
            let rcast = cast_ray(rorig, rdir, spheres, lights, depth + 1);
            let e: i64 = m.specular_exponent;
            let ghost en = m.specular_exponent as nat;
            let mut di: i64 = 0;
            let mut si: i64 = 0;
            let mut i: usize = 0;
            while i < lights.len()
                invariant
                    wf_spheres(spheres@),
                    wf_lights(lights@),
                    0 <= i <= lights.len(),
                    bv(point@, pb),
                    pb == 515 * (s_obound(depth) + 0x4000000),
                    0 <= pb <= 0x20000000000000,
                    bv(nrm@, FRAC as int),
                    bv(dd, 0x80000),
                    dir@ == dd,
                    e as int == en,
                    e >= 0,
                    (di as int, si as int) == s_light_fold(
                        spheres@,
                        lights@,
                        i as nat,
                        point@,
                        nrm@,
                        dd,
                        en,
                    ),
                    0 <= di <= 0xc000000 * (i as int),
                    0 <= si <= 0x4000000 * (i as int),
                decreases lights.len() - i,
            {
                let light = &lights[i];
                let lv = light.position.vsub(point);
                let ldir = lv.unit_or_zero();
                let ldist = lv.norm();
                proof {
                    lemma_dot_bound(ldir@, nrm@, 0x10000, 0x10000);
                }
                let ldn = ldir.dot(nrm);
                proof {
                    lemma_fmul_bound(nrm@.x, s_eps_sign(ldn as int), FRAC as int, 65);
                    lemma_fmul_bound(nrm@.y, s_eps_sign(ldn as int), FRAC as int, 65);
                    lemma_fmul_bound(nrm@.z, s_eps_sign(ldn as int), FRAC as int, 65);
                }
                let seps: i64 = if ldn >= 0 {
                    SHADE_EPS
                } else {
                    -SHADE_EPS
                };
                let sorig = point.vadd(nrm.scale(seps));
                proof {
                    lemma_scene_hit_bound(spheres@, sorig@, ldir@, pb + 65);
                }
                let sres = scene_intersect(sorig, ldir, spheres);
                let mut occluded = false;
                if let Some((spt, _sn, _sm)) = sres {
                    let sd = spt.vsub(sorig).norm();
                    if sd < ldist {
                        occluded = true;
                    }
                }
                proof {
                    assert(occluded == s_shadowed(spheres@, point@, nrm@, lights@[i as int]));
                }
                if !occluded {
                    let dmax: i64 = if ldn < 0 {
                        0
                    } else {
                        ldn
                    };
                    proof {
                        lemma_fmul_bound(light.intensity as int, dmax as int, 0x4000000, 0x30000);
                        assert((light.intensity as int) * (dmax as int) >= 0) by (nonlinear_arith)
                            requires
                                light.intensity >= 0,
                                dmax >= 0,
                        ;
                        vstd::arithmetic::div_mod::lemma_div_pos_is_pos(
                            (light.intensity as int) * (dmax as int),
                            FRAC as int,
                        );
                    }
                    let diffc = fmul64(light.intensity, dmax);
                    proof {
                        lemma_reflect_bound(s_neg(ldir@), nrm@, FRAC as int);
                    }
                    let refl = ldir.vneg().reflect(nrm);
                    proof {
                        lemma_dot_bound(s_neg(refl@), dd, 0x200000000000, 0x80000);
                    }
                    let sb0 = refl.vneg().dot(dir);
                    let sbase: i64 = if sb0 > 0 {
                        if sb0 > FRAC {
                            FRAC
                        } else {
                            sb0
                        }
                    } else {
                        0
                    };
                    let sp = fpow(sbase, e as u64);
                    proof {
                        lemma_fmul_bound(sp as int, light.intensity as int, FRAC as int, 0x4000000);
                        assert((sp as int) * (light.intensity as int) >= 0) by (nonlinear_arith)
                            requires
                                sp >= 0,
                                light.intensity >= 0,
                        ;
                        vstd::arithmetic::div_mod::lemma_div_pos_is_pos(
                            (sp as int) * (light.intensity as int),
                            FRAC as int,
                        );
                    }
                    let specc = fmul64(sp, light.intensity);
                    di = di + diffc;
                    si = si + specc;
                }
                i = i + 1;
            }
            // Combine the three contributions per the material's weights.
            proof {
                lemma_fmul_bound(m.diffuse_colour@.x, di as int, 0x40000, 0xc000000000);
                lemma_fmul_bound(m.diffuse_colour@.y, di as int, 0x40000, 0xc000000000);
                lemma_fmul_bound(m.diffuse_colour@.z, di as int, 0x40000, 0xc000000000);
            }
            let dcol = m.diffuse_colour.scale(di);
            proof {
                lemma_fmul_bound(dcol@.x, m.albedo@.x, 0x30000000000, 0x100000);
                lemma_fmul_bound(dcol@.y, m.albedo@.x, 0x30000000000, 0x100000);
                lemma_fmul_bound(dcol@.z, m.albedo@.x, 0x30000000000, 0x100000);
                lemma_fmul_bound(si as int, m.albedo@.y, 0x4000000000, 0x100000);
            }
            let dterm = dcol.scale(m.albedo.x);
            let sterm = fmul64(si, m.albedo.y);
            let sum1 = dterm.vadd(Vec3::all(sterm));
            let rcol = match rcast {
                Some(c) => c,
                None => Vec3::new(26214, 19660, 32768),
            };
            proof {
                lemma_fmul_bound(rcol@.x, m.albedo@.z, 0x400000000000, 0x100000);
                lemma_fmul_bound(rcol@.y, m.albedo@.z, 0x400000000000, 0x100000);
                lemma_fmul_bound(rcol@.z, m.albedo@.z, 0x400000000000, 0x100000);
            }
            let rterm = rcol.scale(m.albedo.z);
            let result = sum1.vadd(rterm);
            Some(result)
        },
    }
}

} // verus!
