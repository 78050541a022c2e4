//! Analysis and solving of a polynomial identity language.
//!
//! A program of the language declares polynomials over the rows of a trace
//! table: committed ones, whose values are to be found, and constant ones,
//! whose values are fixed. It states identities over them that hold on every
//! row. [`analyzer`] turns the statements of a program into a normalized
//! model. [`commit_evaluator`] finds, row by row, the values of the committed
//! polynomials from that model.

pub mod analyzer;
pub mod ast;
pub mod commit_evaluator;
pub mod number;
pub mod table;
pub mod text;
