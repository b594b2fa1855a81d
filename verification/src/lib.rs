//! Boundary extraction for escape-time fractals sampled on a cubic grid.
//!
//! The grid is swept column by column along its last axis. Every sample is
//! classified as interior or exterior by a bounded escape-time iteration, and
//! the samples at which a column passes from the exterior into the interior
//! are collected, in sweep order, as the boundary of the fractal.
//!
//! The library holds every decision of that sweep: which sample comes next,
//! when an iteration has used up its budget, which samples are recorded. The
//! arithmetic on the iterates themselves is left to the caller, who either
//! hands it in as functions (`engine`) or drives the sweep and reports for
//! each iterate whether it lies outside the escape radius (`scan`).

pub mod boundary;
pub mod collector;
pub mod column;
pub mod engine;
pub mod escape;
pub mod grid;
pub mod positions;
pub mod scan;

use vstd::prelude::*;

verus! {

/// Exponent of the spherical power formula.
pub const POWER: u32 = 8;

/// Radius beyond which an iterate counts as escaped.
pub const ESCAPE_RADIUS: u32 = 2;

/// Iteration cap used when the caller has no reason to pick another.
pub const DEFAULT_MAX_ITER: u32 = 20;

/// Grid resolution used when the caller has no reason to pick another.
pub const DEFAULT_RESOLUTION: u32 = 256;

} // verus!
