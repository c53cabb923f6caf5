//! `block-beta`: a uniform grid of labelled cells, and wires between them.
pub mod parser;
pub mod types;
