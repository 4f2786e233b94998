//! Verified core of a Monte Carlo path-tracing renderer.
//!
//! The scene lives in an append-only, index-addressed arena: instances,
//! materials and textures are stored in flat lists and referred to by small
//! integer ids.  This crate verifies the structural heart of the renderer:
//! the arena and its id-validity invariants, the bounding-volume-hierarchy
//! construction over instance ids, the row-band partitioning used by the
//! tile scheduler, the permutation tables behind gradient noise, and the
//! pixel addressing of image textures.  The floating-point numerics that
//! consume these structures (ray intersection, shading, the integrator)
//! are deliberately kept outside the verified core and reach it only
//! through opaque type parameters and callbacks.

mod perlin;
mod texture;
mod tiles;
mod world;

pub use crate::perlin::TABLE_SIZE;
pub use crate::perlin::gradient_index;
pub use crate::perlin::identity_table;
pub use crate::perlin::perlin_generate_perm;
pub use crate::perlin::permute;
pub use crate::perlin::shuffled;
pub use crate::perlin::swap_entries;

pub use crate::texture::clamp_index;
pub use crate::texture::image_pixel_base;

pub use crate::world::Instance;
pub use crate::world::InstanceId;
pub use crate::world::MaterialId;
pub use crate::world::MaterialInstance;
pub use crate::world::TextureId;
pub use crate::world::TextureInstance;
pub use crate::world::World;
pub use crate::world::WorldBuilder;
pub use crate::world::arena_wf;
pub use crate::world::bvh_height;
pub use crate::world::bvh_leaves;
pub use crate::world::bvh_node_wf;
pub use crate::world::flip_chain;
pub use crate::world::combined_outcome;
pub use crate::world::flipped_outcome;
pub use crate::world::hit_outcome;
pub use crate::world::hit_provenance;
pub use crate::world::hit_scene;
pub use crate::world::in_subtree;
pub use crate::world::instance_links_backward;
pub use crate::world::instance_wf;
pub use crate::world::lemma_arena_links_backward;
pub use crate::world::log2_ceil;
pub use crate::world::material_wf;
pub use crate::world::nonempty_ids;
pub use crate::world::provenance_witness;
pub use crate::world::texture_wf;

pub use crate::tiles::get_segment;
pub use crate::tiles::lemma_row_covered;
pub use crate::tiles::lemma_segments_disjoint;
pub use crate::tiles::lemma_segments_partition;
pub use crate::tiles::segment_lower;
pub use crate::tiles::segment_upper;
