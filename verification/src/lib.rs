//! Grid path model and solver-output reconstruction engine.
//!
//! The library owns the in-memory obstacle grid: which cells are occupied and
//! by which category, the diagonal pair constraints, the start/end markers,
//! and the most recently reconstructed paths.  It provides the freehand
//! rasterizer that turns a pointer drag into a set of touched cells, the
//! diagonal-pair matcher, the small text grammar that recognizes labeled
//! edge-list sections inside a solver's raw answer, and the stitcher that
//! turns one section's unordered directed edges into an ordered walk from
//! the start cell to the end cell.
//!
//! Everything here is pure, synchronous and verified.  Rendering, gesture
//! resolution, configuration I/O, problem-text templating and network
//! transport live outside and talk to this core through plain values.

pub mod cell;
pub mod config;
pub mod error;
pub mod field;
pub mod mode;
pub mod parser;
pub mod path;
pub mod solver;
pub mod store;
pub mod template;
pub mod toast;
