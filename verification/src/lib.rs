//! A candidate-elimination and inference engine for a generalized Sudoku.
//!
//! The board is a 9 x 9 grid of cells grouped into rows, columns and boxes.
//! The engine recomputes, for every cell, which digits remain legally
//! possible, whether a cell's value is uniquely forced by row, column or box
//! analysis, and whether a cell sits in a group that has become
//! unsatisfiable; a separate fill pass assigns the digits that are fully
//! determined. Every operation carries a contract stating the derived data
//! as a pure function of the assigned values and the user's pencil-marks.

pub mod cell;
pub mod consts;
pub mod grid;
pub mod laws;
pub mod model;
pub mod solo_state;
pub mod sudoku_array;

pub use cell::Cell;
pub use cell::CellGeneratedData;
pub use grid::State;
pub use solo_state::SoloState;
pub use sudoku_array::SudokuArray;
