//! Verified solvers for five small text puzzles: two lists of numbers to
//! compare, reports of levels to judge, multiplications to find in corrupted
//! text, a word search on a letter grid, and page updates to check against a
//! table of ordering rules.

pub mod grid;
pub mod instructions;
pub mod lists;
pub mod number;
pub mod ordering;
pub mod reports;
pub mod updates;
