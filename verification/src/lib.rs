//! A minimal offline ray tracer: fixed-point 3D vector algebra, a pinhole
//! camera ray model, ray-sphere intersection, a two-branch shader (surface
//! normal visualisation over a vertical sky gradient), and a per-pixel
//! sampling loop that averages jittered camera rays into 8-bit RGB rows.
//!
//! Real-valued quantities are held as `i64` values scaled by one million
//! (`fixed::SCALE`), so a coordinate of 1.5 is stored as 1_500_000. All
//! arithmetic truncates toward zero, and every operation carries a contract
//! stating its exact result over that representation.

pub mod fixed;
pub mod vec3;
pub mod ray;
pub mod render;
pub mod laws;
