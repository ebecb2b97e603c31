//! Compass-and-straightedge construction engine: inputs, derivation steps,
//! rebuilding of the derived diagram and pointer-driven dragging of inputs.
//!
//! All geometry is exact integer arithmetic. Coordinates count hundredths
//! of a drawing unit; line directions are scaled to length `geom::UNIT`;
//! square roots and divisions round down, and every rounding is bounded by
//! a lemma next to the function that performs it.

pub mod geom;
pub mod builder;
pub mod parser;
