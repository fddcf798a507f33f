//! Residency allocator and backing-store coordinator for a sparse set of
//! fixed-size volumetric chunks.
//!
//! Chunks are keyed by integer 3D position. Each resident chunk carries a
//! stable logical index (never reused) and a dense physical offset in
//! `0..count` (reused through swap-to-end compaction). Mutations within a
//! frame are batched and applied at a single finalization point, which also
//! emits the commands the backing-store device must execute: payload
//! relocations, storage-group growth and atlas refreshes.

pub mod chunk;
pub mod datastore;
pub mod key_tracker;
pub mod manager;
pub mod neighbors;
pub mod offset_tracker;
pub mod pos;
pub mod resource_size_helper;
pub mod util;

pub use chunk::Chunk;
pub use chunk::ResidencyOffset;
pub use datastore::ChunkDatastore;
pub use datastore::DeviceCommand;
pub use key_tracker::KeyTracker;
pub use manager::ChunkManager;
pub use offset_tracker::SharedBufferOffsetTracker;
pub use pos::ChunkPos;
pub use resource_size_helper::ResourceSizeHelper;
pub use util::DrawIndirectPod;
