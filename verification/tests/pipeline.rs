//! Tests of the rendering pipeline on concrete scenes and values.

use whitted::fx::FRAC;
use whitted::vec3::Vec3;
use whitted::material::Material;
use whitted::light::Light;
use whitted::sphere::Sphere;
use whitted::scene::scene_intersect;
use whitted::shade::cast_ray;
use whitted::render::{render, encode_ppm, tone_map, FrameBuffer};

fn grey() -> Material {
    Material::new(Vec3::new(26214, 26214, 19660), 50, Vec3::new(39321, 19660, 0))
}

fn red() -> Material {
    Material::new(Vec3::new(19660, 6553, 6553), 10, Vec3::new(58982, 6553, 0))
}

fn mirror() -> Material {
    Material::new(Vec3::one(), 1425, Vec3::new(0, 655360, 52428))
}

fn default_spheres() -> Vec<Sphere> {
    vec![
        Sphere { centre: Vec3::new(-196608, 0, -1048576), radius: 131072, material: grey() },
        Sphere { centre: Vec3::new(-65536, -98304, -786432), radius: 131072, material: mirror() },
        Sphere { centre: Vec3::new(98304, -32768, -1179648), radius: 196608, material: red() },
        Sphere { centre: Vec3::new(458752, 327680, -1179648), radius: 262144, material: mirror() },
        Sphere { centre: Vec3::new(-1310720, 0, -3276800), radius: 1966080, material: mirror() },
    ]
}

fn default_lights() -> Vec<Light> {
    vec![
        Light { position: Vec3::new(-1310720, 1310720, 1310720), intensity: 98304 },
        Light { position: Vec3::new(1966080, 3276800, -1638400), intensity: 117964 },
        Light { position: Vec3::new(1966080, 1310720, 1966080), intensity: 111411 },
    ]
}

#[test]
fn vector_arithmetic_exact() {
    let a = Vec3::new(65536, -131072, 196608);
    let b = Vec3::new(32768, 32768, -65536);
    assert_eq!(a.vadd(b), Vec3::new(98304, -98304, 131072));
    assert_eq!(a.vsub(b), Vec3::new(32768, -163840, 262144));
    assert_eq!(a.vneg(), Vec3::new(-65536, 131072, -196608));
    assert_eq!(a.add(65536), Vec3::new(131072, -65536, 262144));
    assert_eq!(a.scale(32768), Vec3::new(32768, -65536, 98304));
    // dot: 1*0.5 - 2*0.5 - 3*1 = -3.5
    assert_eq!(a.dot(b), -229376);
    // componentwise division: (1, -2, 3) / (0.5, 0.5, -1) = (2, -4, -3)
    assert_eq!(a.vdiv(b), Vec3::new(131072, -262144, -196608));
    assert_eq!(Vec3::zero(), Vec3::new(0, 0, 0));
    assert_eq!(Vec3::one(), Vec3::new(65536, 65536, 65536));
    assert_eq!(Vec3::all(7), Vec3::new(7, 7, 7));
}

#[test]
fn rem_matches_floating_remainder() {
    // 5.5 % 2.0 = 1.5, -5.5 % 2.0 = -1.5 (sign of the dividend).
    let a = Vec3::new(360448, -360448, 131072);
    let b = Vec3::new(131072, 131072, 131072);
    assert_eq!(a.rem(b), Vec3::new(98304, -98304, 0));
}

#[test]
fn norm_of_pythagorean_triple() {
    let v = Vec3::new(196608, 262144, 0);
    assert_eq!(v.norm(), 327680);
}

#[test]
fn normalise_has_unit_norm() {
    // The unit-norm law on a concrete vector: 3-4-0 normalises to within
    // truncation noise of one unit.
    let v = Vec3::new(196608, 262144, 0);
    let u = v.normalise();
    assert_eq!(u, Vec3::new(39321, 52428, 0));
    let n = u.norm();
    assert!(FRAC - 4 <= n && n <= FRAC + 26, "norm was {}", n);
}

#[test]
fn reflect_about_axis_normal() {
    // Reflecting (1, -1, 0) about the y axis normal gives (1, 1, 0), and the
    // projection onto the normal flips sign exactly.
    let v = Vec3::new(65536, -65536, 0);
    let n = Vec3::new(0, 65536, 0);
    let r = v.reflect(n);
    assert_eq!(r, Vec3::new(65536, 65536, 0));
    assert_eq!(r.dot(n), -v.dot(n));
    assert_eq!(r.norm(), v.norm());
}

#[test]
fn sphere_hit_from_outside_at_centre_distance_minus_radius() {
    let s = Sphere { centre: Vec3::new(0, 0, -1048576), radius: 131072, material: grey() };
    let (hit, t) = s.ray_intersect(Vec3::zero(), Vec3::new(0, 0, -65536));
    assert!(hit);
    // distance to centre 16, radius 2: hit at 14.
    assert_eq!(t, Some(917504));
}

#[test]
fn sphere_aimed_away_gives_no_hit() {
    let s = Sphere { centre: Vec3::new(0, 0, -1048576), radius: 131072, material: grey() };
    let (hit, t) = s.ray_intersect(Vec3::zero(), Vec3::new(0, 0, 65536));
    assert!(!hit);
    // Both roots behind the origin: the parameter is reported negative.
    assert_eq!(t, Some(-917504));
}

#[test]
fn sphere_origin_inside_hits_far_wall() {
    let s = Sphere { centre: Vec3::new(0, 0, -1048576), radius: 131072, material: grey() };
    // Origin one unit from the centre, inside the radius of two: the near
    // root is behind, the far root at three units wins.
    let (hit, t) = s.ray_intersect(Vec3::new(0, 0, -983040), Vec3::new(0, 0, -65536));
    assert!(hit);
    assert_eq!(t, Some(196608));
}

#[test]
fn resolver_returns_strictly_nearer_of_two_overlapping_spheres() {
    let far = Sphere { centre: Vec3::new(0, 0, -655360), radius: 65536, material: grey() };
    let near = Sphere { centre: Vec3::new(0, 0, -589824), radius: 65536, material: red() };
    let spheres = vec![far, near];
    let r = scene_intersect(Vec3::zero(), Vec3::new(0, 0, -65536), &spheres);
    let (point, normal, material) = r.expect("both spheres lie on the ray");
    // far hits at 9, near at 8: the record is near's.
    assert_eq!(point, Vec3::new(0, 0, -524288));
    assert_eq!(normal, Vec3::new(0, 0, 65536));
    assert_eq!(material.diffuse_colour, red().diffuse_colour);
}

#[test]
fn resolver_misses_everything() {
    let spheres = default_spheres();
    // Straight up: above all spheres and away from the plane.
    let r = scene_intersect(Vec3::zero(), Vec3::new(0, 65536, 0), &spheres);
    assert!(r.is_none());
}

#[test]
fn occluded_light_contributes_nothing() {
    // One diffuse-only sphere, one light behind it: the hit point is in the
    // sphere's own shadow, so the colour is black.
    let m = Material::new(Vec3::new(65536, 0, 0), 10, Vec3::new(65536, 0, 0));
    let spheres = vec![Sphere { centre: Vec3::new(0, 0, -1048576), radius: 131072, material: m }];
    let lights = vec![Light { position: Vec3::new(0, 0, -2097152), intensity: 65536 }];
    let c = cast_ray(Vec3::zero(), Vec3::new(0, 0, -65536), &spheres, &lights, 0);
    assert_eq!(c, Some(Vec3::new(0, 0, 0)));
}

#[test]
fn unoccluded_light_contributes_intensity_times_cosine() {
    // The same sphere lit head-on from the camera side: cosine one, so the
    // diffuse intensity equals the light's intensity exactly.
    let m = Material::new(Vec3::new(65536, 0, 0), 10, Vec3::new(65536, 0, 0));
    let spheres = vec![Sphere { centre: Vec3::new(0, 0, -1048576), radius: 131072, material: m }];
    let lights = vec![Light { position: Vec3::new(0, 0, 1048576), intensity: 65536 }];
    let c = cast_ray(Vec3::zero(), Vec3::new(0, 0, -65536), &spheres, &lights, 0);
    assert_eq!(c, Some(Vec3::new(65536, 0, 0)));
}

#[test]
fn recursion_cutoff_returns_nothing() {
    let spheres = default_spheres();
    let lights = default_lights();
    // Depth two aborts before any intersection, whatever the scene holds.
    let c = cast_ray(Vec3::zero(), Vec3::new(0, 0, -65536), &spheres, &lights, 2);
    assert!(c.is_none());
    let c = cast_ray(Vec3::zero(), Vec3::new(0, 0, -65536), &spheres, &lights, 7);
    assert!(c.is_none());
}

#[test]
fn ppm_header_and_payload_length_at_full_resolution() {
    // A full-size gradient framebuffer encodes with the exact header and
    // three bytes per pixel.
    let mut pixels: Vec<Vec3> = Vec::with_capacity(1024 * 768);
    for j in 0..768i64 {
        for i in 0..1024i64 {
            pixels.push(Vec3::new(
                j * 65536 / 768,
                i * 65536 / 1024,
                65536 - i * 65536 / 1024,
            ));
        }
    }
    let fb = FrameBuffer { width: 1024, height: 768, pixels };
    let out = encode_ppm(&fb);
    assert_eq!(&out[..16], b"P6\n1024 768\n255\n");
    assert_eq!(out.len(), 16 + 1024 * 768 * 3);
}

#[test]
fn render_default_scene_small() {
    // The five-sphere, three-light scene at a reduced resolution: the
    // encoding has the right header and size, and some pixel is shaded (not
    // every pixel keeps the gradient).
    let spheres = default_spheres();
    let lights = default_lights();
    let fb = render(&spheres, &lights, 32, 24);
    assert_eq!(fb.width, 32);
    assert_eq!(fb.height, 24);
    assert_eq!(fb.pixels.len(), 32 * 24);
    let out = encode_ppm(&fb);
    assert_eq!(&out[..10], b"P6\n32 24\n2");
    assert_eq!(out.len(), 13 + 32 * 24 * 3);
    let mut shaded = 0;
    for j in 0..24i64 {
        for i in 0..32i64 {
            let g = Vec3::new(j * 65536 / 24, i * 65536 / 32, 65536 - i * 65536 / 32);
            if fb.pixels[(j * 32 + i) as usize] != g {
                shaded += 1;
            }
        }
    }
    assert!(shaded > 0);
}

#[test]
fn missed_pixel_keeps_gradient_exactly() {
    // With no geometry at all, rays pointing upward miss the plane too, so
    // the top row keeps the gradient exactly.
    let spheres: Vec<Sphere> = Vec::new();
    let lights: Vec<Light> = Vec::new();
    let fb = render(&spheres, &lights, 4, 4);
    assert_eq!(fb.pixels[0], Vec3::new(0, 0, 65536));
    assert_eq!(fb.pixels[1], Vec3::new(0, 16384, 49152));
    assert_eq!(fb.pixels[3], Vec3::new(0, 49152, 16384));
}

#[test]
fn tone_mapping_rescales_jointly() {
    // A channel at 2.0 rescales the whole pixel by a half: (2.0, 0.5, 0.5)
    // becomes (1.0, 0.25, 0.25), preserving hue rather than clipping.
    let t = tone_map(Vec3::new(131072, 32768, 32768));
    assert_eq!(t, Vec3::new(65536, 16384, 16384));
    // A pixel already within range is left exactly alone.
    let u = tone_map(Vec3::new(26214, 19660, 32768));
    assert_eq!(u, Vec3::new(26214, 19660, 32768));
}

#[test]
fn quantisation_of_tone_mapped_pixel() {
    // One bright-red pixel: 255 for the saturated channel, 64 for the
    // quarter-intensity ones.
    let fb = FrameBuffer { width: 1, height: 1, pixels: vec![Vec3::new(131072, 32768, 32768)] };
    let out = encode_ppm(&fb);
    assert_eq!(&out[..], b"P6\n1 1\n255\n\xff\x40\x40");
}
