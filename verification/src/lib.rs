//! A grid-based shortest-path search engine.
//!
//! A rectangular passability grid is loaded once and then queried with
//! start/goal cell pairs; each query runs an A* search with the Manhattan
//! heuristic and returns a minimum-cost path of orthogonally adjacent
//! passable cells, or the empty path when the goal is unreachable.

mod frontier;
mod solver;

pub use frontier::Entry;
pub use frontier::Frontier;
pub use solver::MazeError;
pub use solver::MazeSolver;
pub use solver::adjacent;
pub use solver::lemma_manhattan_admissible;
pub use solver::lemma_shortest_routes_equal_length;
pub use solver::manhattan_distance;
pub use solver::manhattan;
pub use solver::rows_valid;
