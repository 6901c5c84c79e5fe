//! A verified validator for 9x9 Sudoku grids.
//!
//! A [`Board`] holds 81 cells, each empty or filled with a digit 1-9.
//! [`Board::check_solution`] scans the 27 constraint groups (9 rows, 9
//! columns, 9 regions), and reports, per group, every duplicated and every
//! missing digit as a human-readable diagnostic line.  Parsing a
//! comma-separated text grid and rendering a bordered picture of the board
//! are provided alongside, with contracts that pin the exact text produced.

pub mod board;
pub mod cell;
pub mod number;
pub mod parse;
pub mod render;
pub mod row;
pub mod text;
pub mod violations;

pub use board::Board;
pub use cell::Cell;
pub use number::Number;
pub use row::Row;
pub use violations::SectionViolations;
