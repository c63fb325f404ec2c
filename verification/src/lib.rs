//! Ray-tracing scene structures whose decisions are verified: interval and
//! box arithmetic on IEEE 754 double-precision bit patterns, the bounding
//! volume hierarchy builder, and the material records.

pub mod scalar;
pub mod vec3;
pub mod interval;
pub mod aabb;
pub mod ray;
pub mod material;
pub mod bvh;
pub mod util;
