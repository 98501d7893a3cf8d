//! Camera, framebuffer, tone mapping and PPM encoding.

use vstd::prelude::*;
use crate::fx::{FRAC, absi, tdiv, fmul, fdiv, maxi, mini, isqrt_s, isqrt, fdiv64, fmul64,
    lemma_tdiv_bound, lemma_mul_bound, lemma_fmul_bound, lemma_isqrt, lemma_isqrt_ordered,
    lemma_isqrt_of_square, lemma_div_mul_le};
use crate::vec3::{Vec3, V3, v3, bv, in64, v_in64, s_scale, s_normalise};
use crate::light::Light;
use crate::sphere::Sphere;
use crate::scene::wf_spheres;
use crate::shade::{cast_ray, s_cast, wf_lights, s_cbound};

verus! {

/// The raw fixed-point value of the square root of three, which fixes the
/// camera's vertical field of view at sixty degrees.
pub open spec fn sqrt3() -> int {
    isqrt_s(3 * (FRAC as int) * (FRAC as int))
}

/// The background gradient a pixel keeps when its primary ray hits nothing:
/// (row/height, col/width, 1 - col/width).
pub open spec fn s_gradient(w: int, h: int, j: int, i: int) -> V3 {
    v3(fdiv(j, h), fdiv(i, w), FRAC - fdiv(i, w))
}

/// The unnormalised camera ray through pixel (row j, column i): through the
/// pixel centre, y flipped so row zero is the image top, looking down -z.
pub open spec fn s_cam_raw(w: int, h: int, j: int, i: int) -> V3 {
    v3((2 * i + 1 - w) * 32768, (h - 2 * j - 1) * 32768, -tdiv(h * sqrt3(), 2))
}

/// The colour rendered at pixel (row j, column i): the cast primary ray's
/// colour, or the gradient when the ray escapes.
pub open spec fn s_render_pixel(
    spheres: Seq<Sphere>,
    lights: Seq<Light>,
    w: int,
    h: int,
    j: int,
    i: int,
) -> V3 {
    match s_cast(spheres, lights, v3(0, 0, 0), s_normalise(s_cam_raw(w, h, j, i)), 0) {
        Some(c) => c,
        None => s_gradient(w, h, j, i),
    }
}

/// A row-major grid of colours, one per pixel.
pub struct FrameBuffer {
    pub width: usize,
    pub height: usize,
    pub pixels: Vec<Vec3>,
}

/// Well-formed framebuffer: full grid, bounded dimensions, bounded colours.
pub open spec fn wf_fb(fb: FrameBuffer) -> bool {
    &&& 1 <= fb.width <= 4096
    &&& 1 <= fb.height <= 4096
    &&& fb.pixels@.len() == fb.width * fb.height
    &&& forall|k: int| 0 <= k < fb.pixels@.len() ==> bv(#[trigger] fb.pixels@[k]@, 0x8000000000000)
}

/// Render the scene: one primary ray per pixel from the origin, through a
/// pinhole camera with a sixty-degree vertical field of view; pixels whose
/// ray escapes keep the background gradient.
pub fn render(spheres: &Vec<Sphere>, lights: &Vec<Light>, width: usize, height: usize) -> (fb:
    FrameBuffer)
    requires
        wf_spheres(spheres@),
        wf_lights(lights@),
        1 <= width <= 4096,
        1 <= height <= 4096,
    ensures
        fb.width == width,
        fb.height == height,
        wf_fb(fb),
        forall|j: int, i: int|
            0 <= j < height && 0 <= i < width ==> fb.pixels@[j * width + i]@ == s_render_pixel(
                spheres@,
                lights@,
                width as int,
                height as int,
                j,
                i,
            ),
{
    let zc: u64 = isqrt(3 * 65536 * 65536);
    proof {
        assert(zc as int == sqrt3());
        lemma_isqrt_of_square(2);
        lemma_isqrt_ordered(4, 3 * (FRAC as int) * (FRAC as int));
        assert(zc >= 2);
        lemma_isqrt_ordered(3 * (FRAC as int) * (FRAC as int), 0x30000int * 0x30000int);
        lemma_isqrt_of_square(0x30000);
        assert(zc <= 0x30000);
    }
    let mut pixels: Vec<Vec3> = Vec::new();
    let mut j: usize = 0;
    while j < height
        invariant
            wf_spheres(spheres@),
            wf_lights(lights@),
            1 <= width <= 4096,
            1 <= height <= 4096,
            0 <= j <= height,
            2 <= zc <= 0x30000,
            zc as int == sqrt3(),
            pixels@.len() == j * width,
            forall|jj: int, ii: int|
                0 <= jj < j && 0 <= ii < width ==> pixels@[jj * width + ii]@ == s_render_pixel(
                    spheres@,
                    lights@,
                    width as int,
                    height as int,
                    jj,
                    ii,
                ),
            forall|k: int| 0 <= k < pixels@.len() ==> bv(#[trigger] pixels@[k]@, 0x8000000000000),
        decreases height - j,
    {
        let mut i: usize = 0;
        while i < width
            invariant
                wf_spheres(spheres@),
                wf_lights(lights@),
                1 <= width <= 4096,
                1 <= height <= 4096,
                0 <= j < height,
                0 <= i <= width,
                2 <= zc <= 0x30000,
                zc as int == sqrt3(),
                pixels@.len() == j * width + i,
                forall|jj: int, ii: int|
                    0 <= jj < j && 0 <= ii < width ==> pixels@[jj * width + ii]@ == s_render_pixel(
                        spheres@,
                        lights@,
                        width as int,
                        height as int,
                        jj,
                        ii,
                    ),
                forall|ii: int|
                    0 <= ii < i ==> pixels@[j * width + ii]@ == s_render_pixel(
                        spheres@,
                        lights@,
                        width as int,
                        height as int,
                        j as int,
                        ii,
                    ),
                forall|k: int|
                    0 <= k < pixels@.len() ==> bv(#[trigger] pixels@[k]@, 0x8000000000000),
            decreases width - i,
        {
            let gx = fdiv64(j as i64, height as i64);
            let gy = fdiv64(i as i64, width as i64);
            proof {
                lemma_tdiv_bound((j as int) * (FRAC as int), height as int, 0x10000000);
                lemma_tdiv_bound((i as int) * (FRAC as int), width as int, 0x10000000);
            }
            let grad = Vec3::new(gx, gy, FRAC - gy);
            let cx: i64 = (2 * (i as i64) + 1 - (width as i64)) * 32768;
            let cy: i64 = ((height as i64) - 2 * (j as i64) - 1) * 32768;
            proof {
                assert((height as int) * (zc as int) >= 2) by (nonlinear_arith)
                    requires
                        height as int >= 1,
                        zc as int >= 2,
                ;
                assert((height as int) * (zc as int) <= 4096 * 0x30000) by (nonlinear_arith)
                    requires
                        1 <= height as int <= 4096,
                        2 <= zc as int <= 0x30000,
                ;
            }
            let hz: u64 = (height as u64) * zc;
            let cz: i64 = -((hz / 2) as i64);
            proof {
                assert(tdiv((height as int) * (zc as int), 2) == (hz as int) / 2);
                assert((hz as int) / 2 >= 1);
            }
            let raw = Vec3::new(cx, cy, cz);
            proof {
                assert(raw@.z != 0);
                assert(raw@ != v3(0, 0, 0));
            }
            let dir = raw.normalise();
            let cast = cast_ray(Vec3::zero(), dir, spheres, lights, 0);
            let px = match cast {
                Some(c) => c,
                None => grad,
            };
            pixels.push(px);
            proof {
                assert(pixels@.len() == j * width + i + 1);
                assert forall|jj: int, ii: int|
                    0 <= jj < j && 0 <= ii < width implies pixels@[jj * width + ii]@
                    == s_render_pixel(
                    spheres@,
                    lights@,
                    width as int,
                    height as int,
                    jj,
                    ii,
                ) by {
                    assert(jj * width + ii < j * width) by (nonlinear_arith)
                        requires
                            0 <= jj < j,
                            0 <= ii < width,
                    ;
                }
            }
            i = i + 1;
        }
        proof {
            assert((j + 1) * width == j * width + width) by (nonlinear_arith);
        }
        j = j + 1;
    }
    proof {
        assert((height as int) * (width as int) == (width as int) * (height as int))
            by (nonlinear_arith);
    }
    FrameBuffer { width, height, pixels }
}

/// The joint tone-mapping scale of a colour: one unit divided by the largest
/// channel, or by one when no channel exceeds a unit.
pub open spec fn s_tone_scale(p: V3) -> int {
    fdiv(FRAC as int, maxi(FRAC as int, maxi(p.x, maxi(p.y, p.z))))
}

/// Joint tone mapping: all three channels rescaled together, preserving hue,
/// so that no channel exceeds one unit.
pub open spec fn s_tone_map(p: V3) -> V3 {
    s_scale(p, s_tone_scale(p))
}

/// A channel quantized for output: clamped to one unit, then rounded to the
/// nearest of 256 levels.
pub open spec fn s_quant(c: int) -> int {
    (mini(maxi(c, 0), FRAC as int) * 255 + 32768) / (FRAC as int)
}

/// The three output bytes of one pixel: its channels tone-mapped jointly,
/// then quantized.
pub open spec fn s_pixel_bytes(p: V3) -> Seq<u8> {
    let t = s_tone_map(p);
    seq![s_quant(t.x) as u8, s_quant(t.y) as u8, s_quant(t.z) as u8]
}

/// Joint tone mapping of one colour, exactly s_tone_map. On colours with
/// nonnegative channels the result keeps every channel within one unit.
pub fn tone_map(p: Vec3) -> (t: Vec3)
    requires
        bv(p@, 0x8000000000000),
    ensures
        t@ == s_tone_map(p@),
        p@.x >= 0 && p@.y >= 0 && p@.z >= 0 ==> 0 <= t@.x <= FRAC && 0 <= t@.y <= FRAC && 0
            <= t@.z <= FRAC,
{
    let m1: i64 = if p.y >= p.z {
        p.y
    } else {
        p.z
    };
    let m2: i64 = if p.x >= m1 {
        p.x
    } else {
        m1
    };
    let mc: i64 = if FRAC >= m2 {
        FRAC
    } else {
        m2
    };
    proof {
        lemma_tdiv_bound((FRAC as int) * (FRAC as int), mc as int, 0x100000000);
        vstd::arithmetic::div_mod::lemma_div_is_ordered_by_denominator(
            0x100000000,
            0x10000,
            mc as int,
        );
    }
    let sc: i64 = fdiv64(FRAC, mc);
    proof {
        lemma_fmul_bound(p@.x, sc as int, 0x8000000000000, 0x10000);
        lemma_fmul_bound(p@.y, sc as int, 0x8000000000000, 0x10000);
        lemma_fmul_bound(p@.z, sc as int, 0x8000000000000, 0x10000);
    }
    let t = p.scale(sc);
    proof {
        if p@.x >= 0 && p@.y >= 0 && p@.z >= 0 {
            lemma_tone_chan(p@.x, mc as int, sc as int);
            lemma_tone_chan(p@.y, mc as int, sc as int);
            lemma_tone_chan(p@.z, mc as int, sc as int);
        }
    }
    t
}

/// A nonnegative channel no larger than the tone divisor lands in [0, one
/// unit] after scaling by the tone factor.
proof fn lemma_tone_chan(c: int, mc: int, sc: int)
    requires
        0 <= c <= mc,
        mc >= FRAC as int,
        sc == fdiv(FRAC as int, mc),
    ensures
        0 <= fmul(c, sc) <= FRAC as int,
{
    let f = FRAC as int;
    assert(sc == (f * f) / mc);
    assert(sc >= 0) by {
        vstd::arithmetic::div_mod::lemma_div_pos_is_pos(f * f, mc);
    }
    assert(c * sc >= 0) by (nonlinear_arith)
        requires
            c >= 0,
            sc >= 0,
    ;
    assert(fmul(c, sc) >= 0) by {
        vstd::arithmetic::div_mod::lemma_div_pos_is_pos(c * sc, f);
    }
    lemma_div_mul_le(f * f, mc);
    assert(sc * mc <= f * f);
    assert(c * sc <= f * f) by (nonlinear_arith)
        requires
            0 <= c <= mc,
            sc >= 0,
            sc * mc <= f * f,
    ;
    lemma_tdiv_bound(c * sc, f, f * f);
    assert((f * f) / f == f) by {
        vstd::arithmetic::div_mod::lemma_div_multiples_vanish(f, f);
    }
}

/// Decimal digits of a number, most significant first.
pub open spec fn s_dec(n: nat) -> Seq<u8>
    decreases n,
{
    if n < 10 {
        seq![(48 + n) as u8]
    } else {
        s_dec(n / 10).push((48 + n % 10) as u8)
    }
}

/// The PPM header: magic, dimensions, and the maximum channel value 255.
pub open spec fn s_ppm_header(w: nat, h: nat) -> Seq<u8> {
    seq![80u8, 54u8, 10u8] + s_dec(w) + seq![32u8] + s_dec(h) + seq![10u8] + s_dec(255) + seq![
        10u8,
    ]
}

/// The payload bytes of the first n pixels.
pub open spec fn s_payload(pixels: Seq<Vec3>, n: nat) -> Seq<u8>
    decreases n,
{
    if n == 0 {
        Seq::empty()
    } else {
        s_payload(pixels, (n - 1) as nat) + s_pixel_bytes(pixels[n - 1]@)
    }
}

/// The payload holds exactly three bytes per pixel.
pub proof fn lemma_payload_len(pixels: Seq<Vec3>, n: nat)
    ensures
        s_payload(pixels, n).len() == 3 * n,
    decreases n,
{
    if n > 0 {
        lemma_payload_len(pixels, (n - 1) as nat);
    }
}

/// Append the decimal digits of n.
fn push_dec(out: &mut Vec<u8>, n: u64)
    ensures
        final(out)@ == old(out)@ + s_dec(n as nat),
    decreases n,
{
    if n < 10 {
        out.push(48 + n as u8);
        proof {
            assert(out@ =~= old(out)@ + s_dec(n as nat));
        }
    } else {
        push_dec(out, n / 10);
        out.push(48 + (n % 10) as u8);
        proof {
            assert(out@ =~= old(out)@ + s_dec(n as nat));
        }
    }
}

/// Quantize one raw channel to a byte: clamp to one unit, round to 255ths.
fn quant(c: i64) -> (q: u8)
    ensures
        q as int == s_quant(c as int),
{
    let cl: i64 = if c < 0 {
        0
    } else if c > FRAC {
        FRAC
    } else {
        c
    };
    let q: u64 = ((cl as u64) * 255 + 32768) / 65536;
    proof {
        assert((cl as int) * 255 + 32768 <= 0x10000 * 255 + 32768) by (nonlinear_arith)
            requires
                0 <= cl as int <= 0x10000,
        ;
        vstd::arithmetic::div_mod::lemma_div_is_ordered(
            (cl as int) * 255 + 32768,
            0x10000int * 255 + 32768,
            0x10000,
        );
    }
    q as u8
}

/// Encode a framebuffer as a binary PPM image: the header, then three bytes
/// per pixel in row-major order, each pixel tone-mapped and quantized.
pub fn encode_ppm(fb: &FrameBuffer) -> (out: Vec<u8>)
    requires
        wf_fb(*fb),
    ensures
        out@ == s_ppm_header(fb.width as nat, fb.height as nat) + s_payload(
            fb.pixels@,
            fb.pixels@.len(),
        ),
        out@.len() == s_ppm_header(fb.width as nat, fb.height as nat).len() + 3 * fb.pixels@.len(),
{
    let mut out: Vec<u8> = Vec::new();
    out.push(80);
    out.push(54);
    out.push(10);
    push_dec(&mut out, fb.width as u64);
    out.push(32);
    push_dec(&mut out, fb.height as u64);
    out.push(10);
    push_dec(&mut out, 255);
    out.push(10);
    proof {
        assert(out@ =~= s_ppm_header(fb.width as nat, fb.height as nat));
    }
    let ghost header = out@;
    let mut k: usize = 0;
    while k < fb.pixels.len()
        invariant
            wf_fb(*fb),
            0 <= k <= fb.pixels@.len(),
            out@ == header + s_payload(fb.pixels@, k as nat),
            header == s_ppm_header(fb.width as nat, fb.height as nat),
        decreases fb.pixels@.len() - k,
    {
        let t = tone_map(fb.pixels[k]);
        out.push(quant(t.x));
        out.push(quant(t.y));
        out.push(quant(t.z));
        proof {
            assert(out@ =~= header + s_payload(fb.pixels@, (k + 1) as nat));
        }
        k = k + 1;
    }
    proof {
        lemma_payload_len(fb.pixels@, fb.pixels@.len());
    }
    out
}

} // verus!
