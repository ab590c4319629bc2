//! A Monte Carlo path tracer over verified fixed-point arithmetic.
//!
//! The renderer models scalars as 1/65536-unit fixed-point integers, so that
//! every geometric and radiometric computation carries an exact contract.

pub mod fixed;
pub mod utils;
pub mod vec3;
pub mod ray;
pub mod interval;
pub mod hittable;
pub mod material;
pub mod color;
pub mod image;
pub mod hittable_list;
pub mod camera;
