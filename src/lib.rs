//! An exact-arithmetic core for a path tracer: fixed-point axis-aligned boxes,
//! slab tests on exact rational ray parameters, nearest-hit scans, and a
//! bounding-volume hierarchy whose answers are proved to match a linear scan.
//! Alongside: the cartesian product that orders pixels, the row-major pixel
//! buffer, and the texture store that materials refer to.
pub mod aabb;
pub mod bvh_node;
pub mod camera;
pub mod extension_traits;
pub mod hittable;
pub mod itertools;
pub mod material;
pub mod ratio;
pub mod texture;
pub mod vec3;
