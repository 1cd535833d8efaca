//! What happens to the results of a search.

pub mod filter;
pub mod filter_laws;
pub mod match_laws;
