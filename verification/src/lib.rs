//! A layout engine: computes a positioned tree of boxes and text fragments
//! from a declarative element tree, subject to size constraints, with an
//! explicit memoization cache so that repeated passes are cheap.
//!
//! Geometry lives in one integer logical-unit space. Text shaping is an
//! external service whose measurements enter through the measured-text
//! model in [`text`]; the flows in [`flow`] pack boxes and text onto
//! lines; the builder in [`engine`] walks the element tree and memoizes
//! each combination step; [`laws`] states and proves the engine's general
//! properties.

pub mod engine;
pub mod flow;
pub mod geometry;
pub mod laws;
pub mod text;
pub mod tree;
