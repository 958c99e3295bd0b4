//! Voxel chunk storage and chunk-streaming selection.
//!
//! A [`chunk::Chunk`] is a fixed-capacity cube of per-cell voxel data addressed
//! by `(y, x, z)` coordinates, and a [`strat::LoadStrat`] decides which chunk
//! coordinates around a viewer should be resident.

pub mod addressing;
pub mod chunk;
pub mod strat;

pub use chunk::Accessor;
pub use chunk::Chunk;
pub use chunk::Data;
pub use chunk::Duo;
pub use chunk::DuoAlt;
pub use chunk::Unit;
pub use strat::ChunkCoord;
pub use strat::LoadStrat;
