//! A software-rendered pixel surface: a mutable rectangular buffer of packed
//! RGBA colors with clipping draw primitives, and a compact color type with
//! channel indexing, linear blending and hex-string parsing.

pub mod canvas;
pub mod rgba;
