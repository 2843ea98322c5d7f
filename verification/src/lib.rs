//! Source-position symbol index and query engine for a grammar-definition
//! language: given the text of a grammar file and its parsed representation,
//! answers "what symbol is at this cursor position", "where is it defined",
//! "where is it used", and "what is its declared type", per open document.

pub mod diag;
pub mod hits;
pub mod index;
pub mod position;
pub mod query;
pub mod span;
pub mod store;
pub mod table;
