//! Diagram types: their readers, their grids and their vocabularies.
pub mod api;
pub mod architecture;
pub mod block;
pub mod c4;
pub mod class;
pub mod color;
