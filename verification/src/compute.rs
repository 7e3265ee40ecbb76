//! The formula engine: parsing a cell's text into an expression tree,
//! evaluating trees against the grid, and the recompute pass that fills
//! every cell's computed slot.
pub mod bake;
pub mod node;
pub mod parse;

