//! Integer core of a wind-particle animation library: tile bookkeeping,
//! trail history buffers, trail vertex assembly, atlas pixel storage and
//! sampling, and the particle lifecycle. Floating-point geometry and the
//! WebGL binding live in `app/`.

mod grid;
mod tile;
mod trail;
mod vertex;
mod atlas;
mod wind;
mod fixed_atlas;
mod particle;

pub use grid::{read_texel, read_corners};
pub use tile::TileCoordinator;
pub use trail::TrailManager;
pub use vertex::TrailVertexBuilder;
pub use atlas::{TileCoord, DynamicAtlas, tiles_in_range, tile_extent};
pub use wind::WindSampler;
pub use fixed_atlas::{FixedAtlas, read_tile_corners};
pub use particle::{ParticleSimulator, ParticleState, Gate, Outcome, Step, gate, settle, settle_in_wind, first_valid, particle_step};
