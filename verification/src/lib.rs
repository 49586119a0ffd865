//! Trainable EML (Exp-Minus-Log) trees for gradient-based symbolic regression:
//! the parameter layout of a tree, the snapping of trained selectors into a
//! symbolic expression, its simplification, and the training bookkeeping that
//! does not touch floating point.
pub mod error;
pub mod expr;
pub mod layout;
pub mod params;
pub mod train;
