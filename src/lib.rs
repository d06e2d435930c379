//! Page-cache residency reporting: the arithmetic of a residency probe, the
//! parsing of process mapping tables and process listings, container overlay
//! path resolution, and the filtering and ordering of the measured records.

pub mod container;
pub mod error;
pub mod maps;
pub mod model;
pub mod pipeline;
pub mod probe;
pub mod text;
pub mod procs;
