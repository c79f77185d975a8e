//! Chunk streaming for a voxel world: which chunks exist around moving
//! observers, and how each chunk's contents are filled exactly once.

pub mod coord_set;
pub mod coords;
pub mod generator;
pub mod index;
pub mod noise_field;
pub mod record;
pub mod streaming;

pub use coords::{ChunkCoordinate, ObserverState, StreamingConfig, WorldPosition};
pub use generator::{is_solid, sample_points, solid_voxels, voxel_position, NOISE_SCALE};
pub use index::{ChunkIndex, IndexError};
pub use noise_field::PerlinInfo;
pub use record::{ChunkRecord, GenerationState, LoadState};
pub use streaming::{StreamingController, TickOutcome};
