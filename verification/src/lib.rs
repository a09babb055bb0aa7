//! Euclidean rhythms: patterns that spread a number of pulses as evenly as
//! possible over a number of steps, built with Bjorklund's pairing algorithm.
//!
//! A pattern is a sequence of booleans, one per step: `true` is a pulse (an
//! onset), `false` a rest. Every executable function states its result over
//! the mathematical model in [`pattern`], and the laws that hold of the
//! patterns are proved in the modules beside it.

pub mod pattern;
pub mod counting;
pub mod rotation;
pub mod balance;
pub mod spacing;
pub mod bjorklund;
pub mod rhythm;
pub mod render;

pub use render::pattern_to_string;
pub use rhythm::{distribute, euclidean, PatternError};
pub use rotation::rotate_pattern;
