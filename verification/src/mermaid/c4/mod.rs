//! C4 diagrams: element boxes, relationships and nested boundaries.
pub mod geom;
pub mod labels;
pub mod parser;
pub mod place;
pub mod style;
pub mod types;
