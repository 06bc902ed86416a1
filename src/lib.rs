//! A Sudoku grid engine: cells, a 9×9 board with a cursor, conflict
//! detection, snapshot-based undo/redo, a randomizing puzzle generator and
//! the key bindings of the game around them.

pub mod csv;
pub mod generator;
pub mod grid;
pub mod session;
pub mod square;
pub mod state;

pub use generator::{Difficulty, Generator};
pub use grid::Grid;
pub use square::Square;
pub use state::{Direction, GridState};
