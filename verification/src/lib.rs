//! Integer core of a real-time particle engine: the deterministic per-particle
//! hash, the SPH spatial hash grid (forward neighbour cell lists, counting sort
//! by cell, candidate pair enumeration), the dam-break lattice, the interleaved
//! GPU upload layout, shape cycling, and the control-surface decisions.

pub mod cells;
pub mod control;
pub mod counting;
pub mod grid;
pub mod hash;
pub mod lattice;
pub mod params;
pub mod shapes;
pub mod upload;
