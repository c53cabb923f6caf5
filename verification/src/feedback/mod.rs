//! Anchored review feedback: the item model, the form reader, and the fold of
//! the review log into settled state.
pub mod form;
pub mod model;
pub mod poll;
pub mod store;
pub mod wire;
