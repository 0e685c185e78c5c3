//! A discrete-time simulator of the Gray-Scott reaction-diffusion model on a
//! fixed-size toroidal 2D grid.
//!
//! Concentration values are IEEE-754 binary64 numbers carried as their `u64`
//! bit patterns, so that the simulation logic can be verified while the
//! arithmetic itself is performed by `rustc_apfloat`'s software
//! implementation of binary64.

pub mod fp;
pub mod grid;
pub mod laws;

