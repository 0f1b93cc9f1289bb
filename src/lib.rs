pub mod indices;
pub mod permutation;
pub mod sudokucell;
pub mod sudokugrid;
pub mod solver;
pub mod reader;

pub use indices::Indices;
pub use sudokucell::SudokuCell;
pub use sudokugrid::SudokuGrid;
pub use solver::sudoku_loop;
pub use reader::{ReadError, reader};
