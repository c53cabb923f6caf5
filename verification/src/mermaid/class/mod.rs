//! Class diagrams: boxes with compartments, and the relationships between them.
pub mod types;
pub mod parser;
pub mod written;
