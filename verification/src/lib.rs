//! Verified core of a cube-sphere terrain presentation layer.
//!
//! - `patch`: quadtree patch addressing, ancestry and stitch masks.
//! - `streaming`, `terrain_streaming`: streaming decisions (bake admission,
//!   publication, LOD groups, memory reservation).
//! - `uploads`, `upload_frames`, `terrain_render`, `render_index`,
//!   `render_config`: the bounded GPU upload queue and its frames, the
//!   render-entity handoff between refining patches and the grid resolution
//!   per level.
//! - `imagery`: residency of streamed imagery tiles within a byte budget.
//! - `surface`, `terrain_surface`, `layers`: close-range surface detail,
//!   scatter density and ground-layer identity.
//! - `mips`, `atlas`, `hashing`, `topology`: texture mip chains, atlas
//!   painting, procedural hashes and mesh index topology.
//! - `selection`: selection hysteresis, retained refinement and stitch
//!   variants of cached bakes.
//! - `performance`, `water`: frame counters and water quality bounds.

pub mod mips;
pub mod atlas;
pub mod patch;
pub mod uploads;
pub mod imagery;
pub mod surface;
pub mod terrain_surface;
pub mod streaming;
pub mod render_index;
pub mod topology;
pub mod terrain_render;
pub mod terrain_streaming;
pub mod water;
pub mod performance;
pub mod layers;
pub mod hashing;
pub mod scheduling;
pub mod selection;
pub mod render_config;
pub mod upload_frames;
