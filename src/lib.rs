//! A spreadsheet engine with incremental recalculation.
//!
//! Cells are keyed by `1000 * column + row`. Each cell holds a value, an
//! error flag and an optional formula. A registry records which formulas
//! read which cells: point edges for plain formulas, and a spatial index of
//! rectangles for the aggregates. A command installs a formula atomically.
//! It then either orders the cells to recompute, producers first, or, when
//! the formula closes a cycle, restores the sheet as it was.

pub mod app_state;
pub mod cell;
pub mod database;
pub mod dep_store;
pub mod display;
pub mod evaluator;
pub mod parser;
pub mod range;
pub mod utils;
