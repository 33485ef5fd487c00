//! A multi-resolution chunked storage layer for N-dimensional grid data.
//!
//! Voxel samples are stored in fixed-shape chunks, and chunks are grouped into
//! a pyramid of levels of detail: level 0 is the finest, and every following
//! level covers the same space at half the sample density per axis.  The heart
//! of the library is the cross-level downsampling operation together with the
//! geometric addressing function it depends on, both verified down to the
//! integer arithmetic on the power-of-two chunk grid.

pub mod addressing;
pub mod chunk;
pub mod chunk_map;
pub mod grid;
pub mod math;
pub mod point;
pub mod pyramid;
pub mod sampler;

pub use addressing::DownsampleDestination;
pub use chunk::Chunk;
pub use chunk_map::ChunkMap;
pub use chunk_map::ChunkMapBuilder;
pub use point::point2;
pub use point::point3;
pub use point::Point;
pub use pyramid::ChunkHashMapPyramid;
pub use pyramid::ChunkPyramid;
pub use pyramid::PyramidError;
pub use sampler::ChunkDownsampler;
pub use sampler::PointDownsampler;
