//! A Whitted-style recursive ray tracer over fixed-point arithmetic.
//!
//! Scene geometry is a set of spheres plus one implicit bounded checkerboard
//! plane; shading is Phong-style local illumination with hard shadows and one
//! mirror bounce. Every scalar is an `i64` raw value `r` standing for the real
//! number `r / 65536`, so the whole pipeline is exact integer arithmetic with
//! verified contracts. Writing the rendered image to disk is left to the
//! surrounding program; the library produces the framebuffer and the encoded
//! image bytes.

pub mod fx;
pub mod vec3;
pub mod material;
pub mod light;
pub mod sphere;
pub mod scene;
pub mod shade;
pub mod render;
pub mod laws;
