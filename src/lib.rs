//! Light-transport core of a physically based renderer: path graphs,
//! replayable random sequences, breadth-first path generation, tiling of the
//! frame and the pixel bookkeeping of the gradient-domain integrator.
pub mod generator;
pub mod gradient;
pub mod path;
pub mod sampler;
pub mod structure;
pub mod tiles;
pub mod vpl;
