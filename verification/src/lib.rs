//! Review tooling: anchored feedback on a rendered artifact, and the readers,
//! grid placement and small vocabularies behind a set of diagram types.
pub mod feedback;
pub mod mermaid;
pub mod text;
