//! Procedural terrain imagery from layered gradient noise, in fixed-point
//! arithmetic: sample coordinates for every octave, octave weighting,
//! height normalisation, biome classification and colour quantisation.

pub mod fixed;
pub mod palette;
pub mod fractal;
pub mod synth;
