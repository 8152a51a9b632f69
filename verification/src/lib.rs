//! A nonogram (paint-by-numbers) deduction engine.
//!
//! Given run-length clues for every row and column of a rectangular grid,
//! the solver determines which cells are forced to be filled or empty by
//! pure single-line deduction, iterated over rows and columns to a fixpoint.

pub mod cell;
pub mod clues;
pub mod clues_placer;
pub mod grid;
pub mod grid_solver;
pub mod line;
pub mod line_solver;
pub mod placement;
pub mod samples;

pub use cell::Cell;
pub use clues::Clues;
pub use clues::CluesLine;
pub use clues_placer::place_clues;
pub use clues_placer::CluesPlacer;
pub use grid::Grid;
pub use grid_solver::solve_col;
pub use grid_solver::solve_row;
pub use grid_solver::GridSolver;
pub use grid_solver::GridSolverEvent;
pub use grid_solver::GridSolverStats;
pub use line::Line;
pub use line::LineSize;
pub use line_solver::render_placed_clues;
pub use line_solver::solve_line;
pub use line_solver::LineSolver;
pub use placement::place_clue;
pub use placement::CluePlacer;
pub use samples::camel;
pub use samples::eagle;
