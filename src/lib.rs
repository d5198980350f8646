//! Procedural 2D noise: a 32-bit mixing hash, white-noise grids filled from its chain,
//! and stacks of octave grids sampled through exact bilinear stencils.

pub mod noise;
