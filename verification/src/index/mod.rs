//! What is computed from a document when it is indexed.

pub mod break_laws;
pub mod breaks;
pub mod chunk_laws;
pub mod chunker;
pub mod coverage;
pub mod title;
pub mod title_laws;
