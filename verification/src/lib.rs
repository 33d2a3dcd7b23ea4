//! A ray-tracing core over exact fixed-point arithmetic.
//!
//! Geometry is carried in integer sub-units (`num::SCALE` sub-units to one
//! world unit), so every intersection decision, every bounding-volume test
//! and every shading step is an exact computation with a proved contract.

pub mod num;
pub mod vector;
pub mod ray;
pub mod aabb;
pub mod color;
pub mod material;
pub mod hittable;
pub mod sphere;
pub mod moving;
pub mod definitions;
pub mod hittable_list;
pub mod bvh;
pub mod camera;
