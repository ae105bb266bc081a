//! Exhaustive solver for the 33-hole English peg solitaire board.
//!
//! The board is a word of 64 bits. On it stand the moves, the eight
//! symmetries and the canonical form, and on these the search for all
//! solvable boards, for one solution, and for what random play can lead to.

pub mod bits;
pub mod board;
pub mod cache;
pub mod calc_first;
pub mod calc_naive;
pub mod calc_success;
pub mod compress;
pub mod dag;
pub mod dir;
pub mod expand;
pub mod hash;
pub mod known_solution;
pub mod mov;
pub mod moves;
pub mod ops;
pub mod pagoda;
pub mod parallel;
pub mod radix_tree;
pub mod reach;
pub mod solution;
pub mod solver;
pub mod sort;
pub mod symmetry;
pub mod text;
pub mod theory;

pub use board::Board;
pub use cache::{load_solutions, save_solutions, CacheError};
pub use calc_first::calculate_first_solution;
pub use calc_naive::calculate_all_solutions_naive;
pub use calc_success::{boards_with_pegs, feasible_set, hints, random_move_outcomes, Outcomes};
pub use dir::{Dir, Idx};
pub use hash::BoardSet;
pub use mov::Move;
pub use solution::Solution;
pub use solver::calculate_all_solutions;
pub use sort::Sort;
