//! Procedural dungeon generation and field-of-view library.
//!
//! The crate builds connected, explorable tile grids through a chain of
//! pluggable map-construction passes (cellular automata, randomized walk,
//! pattern-constraint solving), guarantees reachability of every walkable
//! cell from the starting position, partitions walkable space into spawn
//! regions, and computes per-occupant visibility with reveal bookkeeping.

mod tiletype;
mod grid;
mod rng;
mod reach;
mod regions;
mod constraints;
mod builder;
mod cellular;
mod drunkard;
mod empty_map;
mod chain;
mod visibility;
mod solver;

pub use tiletype::TileType;
pub use tiletype::tile_walkable;
pub use tiletype::tile_opaque;
pub use grid::Grid;
pub use grid::Position;
pub use constraints::MapChunk;
pub use constraints::tile_idx_in_chunk;
pub use constraints::build_patterns;
pub use constraints::patterns_to_constraints;
pub use constraints::render_pattern_to_map;
pub use builder::BuildError;
pub use builder::BuilderMap;
pub use builder::InitialBuilder;
pub use builder::MetaBuilder;
pub use builder::XStart;
pub use builder::YStart;
pub use builder::CellularParams;
pub use builder::DrunkardParams;
pub use builder::VoronoiParams;
pub use builder::WfcParams;
pub use solver::solve_chunk_assignment;
pub use cellular::CellularAutomataBuilder;
pub use empty_map::EmptyMapBuilder;
pub use chain::BuilderChain;
pub use chain::limestone_cavern_builder;
pub use visibility::field_of_view;
pub use visibility::Viewshed;
pub use visibility::rebuild_view_blocked;
pub use visibility::recompute_viewshed;
pub use visibility::observer_reveal;
pub use visibility::discover_hidden;
pub use reach::distance_field;
pub use reach::count_reached;
pub use reach::cull_unreachable;
pub use reach::most_distant_reachable;
pub use reach::UNREACHABLE;
pub use regions::pick_seeds;
pub use regions::voronoi_regions;
pub use regions::spawn_from_regions;
pub use builder::area_starting_position;
pub use builder::cull_unreachable_pass;
pub use builder::distant_exit_pass;
pub use builder::voronoi_spawning_pass;
pub use builder::waveform_collapse_pass;
pub use cellular::cellular_automata_generate;
pub use cellular::smoothing_pass;
pub use drunkard::drunkards_walk_generate;
pub use empty_map::empty_map_generate;
pub use reach::reach_n;
pub use reach::reachable;
pub use reach::spec_dist;
pub use reach::all_walkable_reachable;
pub use reach::lemma_reach_mono;
pub use reach::lemma_reach_walkable;
pub use reach::lemma_reach_transfer;
pub use reach::lemma_reach_same_walkability;
pub use reach::lemma_dist_minimal;
pub use regions::nearest_seed;
pub use regions::cell_in_regions;
pub use regions::lemma_regions_partition;
pub use regions::lemma_seed_in_own_region;
pub use constraints::chunk_wf;
pub use constraints::compat;
pub use constraints::pattern_exit;
pub use constraints::pattern_has_exits;
pub use constraints::edge_empty;
pub use constraints::opposite;
pub use constraints::lemma_compat_alignment;
pub use solver::assignment_ok;
pub use builder::bm_inv;
pub use builder::has_valid_start;
pub use builder::start_consistent;
pub use cellular::cavern_level_ok;
pub use cellular::smooth_at;
pub use empty_map::blank_at;
pub use chain::initial_ok;
pub use chain::meta_ok;
pub use visibility::visible_spec;
pub use visibility::clear_line;
pub use visibility::blocked_sight_at;
pub use visibility::fov_ok;
pub use visibility::strictly_between;
pub use visibility::some_position_at;
pub use visibility::found_ok;
pub use visibility::lemma_open_ground_symmetry;
pub use visibility::lemma_between_occludes;
