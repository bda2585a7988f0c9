//! A heuristic solver for a small set-packing puzzle: a building is a list of
//! floors, each floor a list of person names (unique within a floor).  The
//! goal is to pick a combination of floors whose names are pairwise disjoint
//! and whose total name count is as large as possible.
//!
//! The solver builds a compatibility graph over floors (two floors are
//! compatible when they share no name), greedily grows maximal sets of
//! mutually compatible floors, enumerates a pool of such sets, and scores
//! them by total name count.

pub mod building;
pub mod floorset;
pub mod fmt;
pub mod graph;
pub mod score;
pub mod solution;

pub use building::NameFloorMap;
pub use building::make_name_floor_map;
pub use fmt::fmt_iter;
pub use fmt::make_floor_list_str;
pub use graph::make_compatible_floors_map;
pub use score::find_best_solution;
pub use score::solution_score;
pub use solution::Solution;
pub use solution::find_rest_of_solutions;
pub use solution::walk_solution_from;
