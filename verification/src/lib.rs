//! Streams a voxel world to moving observers: enumerates the surface cells
//! of cubic regions, diffs two regions of equal radius as an observer moves,
//! tracks per-reason residency of loaded cells, and coalesces load requests
//! so that each (cell, level-of-detail) pair has at most one request in
//! flight at a time.

pub mod cell;
pub mod cube_shell;
pub mod residency;
pub mod coordinator;
pub mod movement;
pub mod terrain_buffers;
pub mod vertex;
