//! `architecture-beta`: services in groups, joined at named sides.
pub mod grid;
pub mod layout;
pub mod parser;
pub mod route;
pub mod types;
pub mod written;
