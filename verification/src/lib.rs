//! Verified core of the ENVI outdoor sound-propagation engine.
//!
//! The library holds the engine's discrete machinery: the band grid of the
//! 1/12-octave evaluation axis, the pinned UTM coordinate reference system and
//! its labels, the chunked transfer-tensor store, the chunk planner and the
//! chunked fill loop that stream solver results into it, and the screen
//! grouping and classification of terrain interpretation. The
//! floating-point acoustics run on top of it.

pub mod crs;
pub mod directivity;
pub mod freq;
pub mod scene;
pub mod solver;
pub mod tensor;
pub mod terrain;
