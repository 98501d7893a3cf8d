//! Scene intersection: the nearest hit over all spheres plus the implicit
//! bounded checkerboard plane.

use vstd::prelude::*;
use crate::fx::{FRAC, absi, tdiv, fmul, fdiv, fdiv64, lemma_tdiv_bound, lemma_mul_bound, lemma_tdiv_mul_bound,
    lemma_fmul_bound, lemma_tdiv_div_bound};
use crate::vec3::{Vec3, V3, v3, bv, in64, v_in64, s_add, s_sub, s_adds, s_scale, s_rem,
    s_unit_or_zero};
use crate::material::{Material, wf_material};
use crate::sphere::{Sphere, wf_sphere, s_ray_hit, s_t0, lemma_t0_bound};

verus! {

/// Depth of the implicit plane below the camera axis, raw (ten whole
/// units): the plane lies at minus this height.
pub const PLANE_Y: i64 = 655360;

/// Half-extent of the plane in x and z, raw (ten whole units).
pub const PLANE_SIZE: i64 = 655360;

/// Reference offset of the plane patch, raw (0, 10, -20) in whole units:
/// hit points are taken relative to it for the bounds test and the tiling.
pub open spec fn plane_centre() -> V3 {
    v3(0, 655360, -1310720)
}

/// Rays whose direction has |y| at most this raw threshold are treated as
/// parallel to the plane (the threshold is one thousandth of a unit,
/// truncated).
pub const NEAR_PARALLEL: i64 = 65;

/// Every sphere of the scene is well formed.
pub open spec fn wf_spheres(s: Seq<Sphere>) -> bool {
    forall|i: int| 0 <= i < s.len() ==> wf_sphere(#[trigger] s[i])
}

/// The nearest sphere hit among the first n spheres: index and intersection
/// parameter. A later sphere replaces the running best only on a strictly
/// smaller parameter, so the earliest sphere wins ties.
pub open spec fn s_best(spheres: Seq<Sphere>, o: V3, d: V3, n: nat) -> Option<(int, int)>
    decreases n,
{
    if n == 0 {
        None
    } else {
        let prev = s_best(spheres, o, d, (n - 1) as nat);
        let s = spheres[n - 1];
        let hit = s_ray_hit(s.centre@, s.radius as int, o, d);
        let t = s_t0(s.centre@, s.radius as int, o, d);
        if hit && (prev is None || t < prev->Some_0.1) {
            Some((n - 1, t))
        } else {
            prev
        }
    }
}

/// Intersection parameter of the ray with the plane's height.
pub open spec fn s_plane_d(o: V3, d: V3) -> int
    recommends
        d.y != 0,
{
    fdiv(-(o.y + PLANE_Y as int), d.y)
}

/// Where the ray meets the plane's height.
pub open spec fn s_plane_pt(o: V3, d: V3) -> V3 {
    s_add(o, s_scale(d, s_plane_d(o, d)))
}

/// The plane provides the record: the ray is not near-parallel, meets the
/// plane ahead of the origin, nearer than the best sphere hit, and within the
/// patch bounds.
pub open spec fn s_plane_applies(o: V3, d: V3, best: Option<(int, int)>) -> bool {
    &&& absi(d.y) > NEAR_PARALLEL as int
    &&& {
        let dist = s_plane_d(o, d);
        let p = s_sub(s_plane_pt(o, d), plane_centre());
        &&& dist > 0
        &&& (best is None || dist < best->Some_0.1)
        &&& absi(p.x) < PLANE_SIZE as int
        &&& absi(p.z) < PLANE_SIZE as int
    }
}

/// Checkerboard colour at the plane hit: the offset from the patch corner,
/// scaled by one and a half units and tiled modulo two units, picks one of
/// two colours by whether the x and z cells agree in parity.
pub open spec fn s_plane_colour(o: V3, d: V3) -> V3 {
    let p = s_sub(s_plane_pt(o, d), plane_centre());
    let mods = s_rem(s_scale(s_adds(p, PLANE_SIZE as int), 98304), v3(131072, 131072, 131072));
    if (absi(mods.x) < FRAC as int) == (absi(mods.z) < FRAC as int) {
        v3(FRAC as int, 0, 0)
    } else {
        v3(0, 0, FRAC as int)
    }
}

/// The checkerboard's material: mostly diffuse, no reflection.
pub open spec fn s_plane_material(o: V3, d: V3) -> Material {
    Material {
        diffuse_colour: Vec3 {
            x: s_plane_colour(o, d).x as i64,
            y: s_plane_colour(o, d).y as i64,
            z: s_plane_colour(o, d).z as i64,
        },
        specular_exponent: 20,
        albedo: Vec3 { x: 6553, y: 6553, z: 6553 },
    }
}

/// A scene hit: the surface point, its unit normal, and the material there.
pub ghost struct SHit {
    pub point: V3,
    pub normal: V3,
    pub material: Material,
}

/// The record of the winning sphere.
pub open spec fn s_sphere_record(spheres: Seq<Sphere>, o: V3, d: V3, idx: int, t: int) -> SHit {
    let point = s_add(o, s_scale(d, t));
    SHit {
        point,
        normal: s_unit_or_zero(s_sub(point, spheres[idx].centre@)),
        material: spheres[idx].material,
    }
}

/// The full resolver result: the plane's record when the plane applies, else
/// the nearest sphere's record, else nothing.
pub open spec fn s_scene_hit(spheres: Seq<Sphere>, o: V3, d: V3) -> Option<SHit> {
    let best = s_best(spheres, o, d, spheres.len());
    if s_plane_applies(o, d, best) {
        Some(
            SHit {
                point: s_plane_pt(o, d),
                normal: v3(0, FRAC as int, 0),
                material: s_plane_material(o, d),
            },
        )
    } else if best is Some {
        Some(s_sphere_record(spheres, o, d, best->Some_0.0, best->Some_0.1))
    } else {
        None
    }
}

/// The running best is always a genuine hit among the prefix, with the least
/// parameter; the earliest sphere attaining it wins.
pub proof fn lemma_best_characterises(spheres: Seq<Sphere>, o: V3, d: V3, n: nat)
    requires
        n <= spheres.len(),
    ensures
        s_best(spheres, o, d, n) matches Some(p) ==> {
            &&& 0 <= p.0 < n
            &&& s_ray_hit(spheres[p.0].centre@, spheres[p.0].radius as int, o, d)
            &&& p.1 == s_t0(spheres[p.0].centre@, spheres[p.0].radius as int, o, d)
            &&& p.1 >= 0
        },
        forall|k: int|
            0 <= k < n && s_ray_hit(spheres[k].centre@, spheres[k].radius as int, o, d)
                ==> (s_best(spheres, o, d, n) matches Some(p) && p.1 <= #[trigger] s_t0(
                spheres[k].centre@,
                spheres[k].radius as int,
                o,
                d,
            )),
    decreases n,
{
    if n > 0 {
        lemma_best_characterises(spheres, o, d, (n - 1) as nat);
    }
}

/// Any record the resolver returns lies within a volume proportional to the
/// reach of the ray origin, its normal is unit-bounded, and its material is
/// well formed.
pub proof fn lemma_scene_hit_bound(spheres: Seq<Sphere>, o: V3, d: V3, bo: int)
    requires
        wf_spheres(spheres),
        bv(o, bo),
        bv(d, 0x80000),
        0 <= bo <= 0x2000000000000,
    ensures
        s_scene_hit(spheres, o, d) matches Some(sh) ==> bv(sh.point, 515 * (bo + 0x4000000))
            && bv(sh.normal, FRAC as int) && wf_material(sh.material),
{
    let best = s_best(spheres, o, d, spheres.len());
    lemma_best_characterises(spheres, o, d, spheres.len());
    if s_plane_applies(o, d, best) {
        let dist = s_plane_d(o, d);
        let pt = s_plane_pt(o, d);
        let p = s_sub(pt, plane_centre());
        let a = -(o.y + PLANE_Y as int);
        lemma_tdiv_mul_bound(a * (FRAC as int), d.y);
        assert(absi(a * (FRAC as int)) == absi(a) * (FRAC as int)) by (nonlinear_arith);
        lemma_tdiv_bound(d.y * dist, FRAC as int, absi(a) * (FRAC as int));
        assert((absi(a) * (FRAC as int)) / (FRAC as int) == absi(a)) by {
            vstd::arithmetic::div_mod::lemma_div_multiples_vanish(absi(a), FRAC as int);
            assert((FRAC as int) * absi(a) == absi(a) * (FRAC as int)) by (nonlinear_arith);
        }
        assert(absi(fmul(d.y, dist)) <= absi(a));
        assert(bv(s_plane_colour(o, d), FRAC as int));
        assert(wf_material(s_plane_material(o, d)));
    } else if best is Some {
        let idx = best->Some_0.0;
        let t = best->Some_0.1;
        let s = spheres[idx];
        lemma_t0_bound(s.centre@, s.radius as int, o, d, bo);
        lemma_fmul_bound(d.x, t, 0x80000, 64 * (bo + 0x4000000));
        lemma_fmul_bound(d.y, t, 0x80000, 64 * (bo + 0x4000000));
        lemma_fmul_bound(d.z, t, 0x80000, 64 * (bo + 0x4000000));
        assert(0x80000 * (64 * (bo + 0x4000000)) == (512 * (bo + 0x4000000)) * 0x10000)
            by (nonlinear_arith);
        assert(((512 * (bo + 0x4000000)) * 0x10000) / 0x10000 == 512 * (bo + 0x4000000)) by {
            vstd::arithmetic::div_mod::lemma_div_multiples_vanish(512 * (bo + 0x4000000), 0x10000);
            assert(0x10000 * (512 * (bo + 0x4000000)) == (512 * (bo + 0x4000000)) * 0x10000)
                by (nonlinear_arith);
        }
        let point = s_add(o, s_scale(d, t));
        assert(bv(point, 513 * (bo + 0x4000000)));
        crate::vec3::lemma_unit_or_zero_bound(s_sub(point, s.centre@));
    }
}

impl Sphere {
    /// Helper spec: this sphere's hit flag for a ray.
    pub open spec fn hits(&self, o: V3, d: V3) -> bool {
        s_ray_hit(self.centre@, self.radius as int, o, d)
    }

    /// Helper spec: this sphere's intersection parameter for a ray.
    pub open spec fn hit_t(&self, o: V3, d: V3) -> int {
        s_t0(self.centre@, self.radius as int, o, d)
    }
}

/// Nearest intersection of the ray with the scene: spheres plus the implicit
/// checkerboard plane. Returns the hit point, the surface normal there, and
/// the material, or nothing when the ray escapes.
pub fn scene_intersect(orig: Vec3, dir: Vec3, spheres: &Vec<Sphere>) -> (r: Option<
    (Vec3, Vec3, Material),
>)
    requires
        wf_spheres(spheres@),
        bv(orig@, 0x2000000000000),
        bv(dir@, 0x80000),
    ensures
        match r {
            Some(h) => s_scene_hit(spheres@, orig@, dir@) matches Some(sh) && h.0@ == sh.point
                && h.1@ == sh.normal && h.2 == sh.material,
            None => s_scene_hit(spheres@, orig@, dir@) is None,
        },
{
    let ghost o = orig@;
    let ghost dd = dir@;
    let mut hit: Vec3 = Vec3::zero();
    let mut n: Vec3 = Vec3::zero();
    let mut material: Material = Material::new(Vec3::zero(), 0, Vec3::zero());
    let mut have_best: bool = false;
    let mut best_t: i64 = 0;
    let mut i: usize = 0;
    while i < spheres.len()
        invariant
            wf_spheres(spheres@),
            bv(o, 0x2000000000000),
            bv(dd, 0x80000),
            0 <= i <= spheres.len(),
            orig@ == o,
            dir@ == dd,
            match s_best(spheres@, o, dd, i as nat) {
                None => !have_best,
                Some(p) => {
                    &&& have_best
                    &&& best_t as int == p.1
                    &&& hit@ == s_add(o, s_scale(dd, p.1))
                    &&& n@ == s_unit_or_zero(s_sub(s_add(o, s_scale(dd, p.1)), spheres@[p.0].centre@))
                    &&& material == spheres@[p.0].material
                },
            },
        decreases spheres.len() - i,
    {
        let s = &spheres[i];
        let ghost c = s.centre@;
        let ghost rr = s.radius as int;
        let (ok, od) = s.ray_intersect(orig, dir);
        if ok {
            if let Some(dist) = od {
                if !have_best || dist < best_t {
                    proof {
                        lemma_t0_bound(c, rr, o, dd, 0x2000000000000);
                        lemma_fmul_bound(dd.x, dist as int, 0x80000, 0x100000000000000);
                        lemma_fmul_bound(dd.y, dist as int, 0x80000, 0x100000000000000);
                        lemma_fmul_bound(dd.z, dist as int, 0x80000, 0x100000000000000);
                    }
                    have_best = true;
                    best_t = dist;
                    hit = orig.vadd(dir.scale(dist));
                    n = hit.vsub(s.centre).unit_or_zero();
                    material = s.material;
                }
            }
        }
        proof {
            assert(s_best(spheres@, o, dd, (i + 1) as nat) == {
                let prev = s_best(spheres@, o, dd, i as nat);
                let sp = spheres@[i as int];
                let hh = s_ray_hit(sp.centre@, sp.radius as int, o, dd);
                let t = s_t0(sp.centre@, sp.radius as int, o, dd);
                if hh && (prev is None || t < prev->Some_0.1) {
                    Some((i as int, t))
                } else {
                    prev
                }
            });
        }
        i = i + 1;
    }
    let ghost best = s_best(spheres@, o, dd, spheres@.len());
    // The implicit checkerboard plane, tested only when the ray is not
    // near-parallel to it.
    let ay: i64 = if dir.y < 0 {
        -dir.y
    } else {
        dir.y
    };
    let mut plane_won: bool = false;
    if ay > NEAR_PARALLEL {
        proof {
            lemma_mul_bound(-(o.y + PLANE_Y as int), FRAC as int, 0x20000000a0000, 0x10000);
            lemma_tdiv_div_bound(
                (-(o.y + PLANE_Y as int)) * (FRAC as int),
                dd.y,
                0x20000000a00000000,
                66,
            );
            assert(0x20000000a00000000int / 66 < 0x800000000000000int);
        }
        let dist: i64 = fdiv64(-(orig.y + PLANE_Y), dir.y);
        proof {
            lemma_fmul_bound(dd.x, dist as int, 0x80000, 0x800000000000000);
            lemma_fmul_bound(dd.y, dist as int, 0x80000, 0x800000000000000);
            lemma_fmul_bound(dd.z, dist as int, 0x80000, 0x800000000000000);
        }
        let pt = orig.vadd(dir.scale(dist));
        let p = pt.vsub(Vec3::new(0, PLANE_Y, -1310720));
        let px: i64 = if p.x < 0 {
            -p.x
        } else {
            p.x
        };
        let pz: i64 = if p.z < 0 {
            -p.z
        } else {
            p.z
        };
        if dist > 0 && (!have_best || dist < best_t) && px < PLANE_SIZE && pz < PLANE_SIZE {
            plane_won = true;
            hit = pt;
            n = Vec3::new(0, FRAC, 0);
            proof {
                lemma_fmul_bound(p@.x + PLANE_SIZE as int, 98304, 0x4003000000000000, 0x18000);
                lemma_fmul_bound(p@.y + PLANE_SIZE as int, 98304, 0x4003000000000000, 0x18000);
                lemma_fmul_bound(p@.z + PLANE_SIZE as int, 98304, 0x4003000000000000, 0x18000);
            }
            let mods = p.add(PLANE_SIZE).scale(98304).rem(Vec3::new(131072, 131072, 131072));
            let mx: i64 = if mods.x < 0 {
                -mods.x
            } else {
                mods.x
            };
            let mz: i64 = if mods.z < 0 {
                -mods.z
            } else {
                mods.z
            };
            let colour = if (mx < FRAC) == (mz < FRAC) {
                Vec3::new(FRAC, 0, 0)
            } else {
                Vec3::new(0, 0, FRAC)
            };
            material = Material::new(colour, 20, Vec3::new(6553, 6553, 6553));
            proof {
                assert(s_plane_applies(o, dd, best));
                assert(material == s_plane_material(o, dd));
            }
        } else {
            proof {
                assert(!s_plane_applies(o, dd, best));
            }
        }
    } else {
        proof {
            assert(!s_plane_applies(o, dd, best));
        }
    }
    if plane_won || have_best {
        Some((hit, n, material))
    } else {
        None
    }
}

} // verus!
