//! A ray tracer on fixed-point numbers.
//!
//! A scene is an [`object::Object`]: spheres and rectangles of some
//! [`material::Material`], in lists or in a bounding-volume hierarchy built
//! by [`object::BvhNode::init`]. A [`camera::Camera`] sends rays into it,
//! [`render::ray_color`] follows a ray from surface to surface, and
//! [`render::Shot::render_rows`] fills the rows of a [`canvas::Canvas`].
//!
//! All numbers are [`fixed::Fixed`]: reals in signed 32.32 fixed point with
//! saturating arithmetic, rounded to the nearest number, that is specified
//! exactly.

pub mod aabb;
pub mod aarect;
pub mod bvh;
pub mod camera;
pub mod canvas;
pub mod fixed;
pub mod material;
pub mod object;
pub mod random;
pub mod ray;
pub mod render;
pub mod sence;
mod sharing;
pub mod sphere;
pub mod texture;
pub mod trig;
pub mod vec3;
