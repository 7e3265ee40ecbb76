//! A spreadsheet formula engine: cells hold text or formulas referencing
//! other cells by address, and one recompute pass parses, orders and
//! evaluates every cell, detecting cyclic references.  Values are exact
//! rationals, so a computed number is precisely what the formula denotes.
pub mod compute;
pub mod rational;
pub mod sheet;
pub mod state;
pub mod text;
