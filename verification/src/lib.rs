//! Core logic of a terrain-tile streaming viewer: tile keys and the
//! tile-range calculator, the tile lifecycle bookkeeping, background-task
//! accounting, raster/model coordinate transforms, terrain mesh indexing,
//! depth read-back bookkeeping and peak-label row packing.

pub mod camera;
pub mod decimal;
pub mod depth;
pub mod geo;
pub mod labels;
pub mod lifecycle;
pub mod mesh;
pub mod peaks;
pub mod range;
pub mod scheduler;
pub mod seq_facts;
pub mod status;
pub mod transform;
