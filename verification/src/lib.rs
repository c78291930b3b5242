//! Stroke-geometry core of a RoughJS-style sketch generator: the seeded
//! Park-Miller generator that drives every random offset, the SVG path-data
//! lexer and parser, the path preprocessing step, the edge layout of linear
//! paths, and the integer tags of the flat op buffer.

pub mod ops;
pub mod random;
pub mod path;
pub mod shapes;
