//! A 9x9 number-placement puzzle solver: candidate propagation, forced
//! assignments, status classification and a guess-and-backtrack search,
//! each stated and proved against a mathematical model of the grid.

pub mod cell;
pub mod pinned;
pub mod grid;
pub mod status;
pub mod propagate;
pub mod consolidate;
pub mod search;
pub mod parse;

pub use cell::Cell;
pub use consolidate::{CellAssignment, Consolidation};
pub use grid::{Puzzle, block_num_for_row_col, grid_origin_offset_for_block};
pub use pinned::reduce_candidates_by_uniqueness;
pub use propagate::{WaterCannonSights, line_up_water_cannon};
pub use search::solve_with_guesses;
pub use status::{IllDefinedReason, PuzzleStatus};
