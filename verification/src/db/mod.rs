//! What is stored in a collection's database, and how it is read back.

pub mod edge_laws;
pub mod graph;
pub mod graph_laws;
pub mod groups;
pub mod nearest;
pub mod ranking;
pub mod rebuild;
pub mod rewrite;
pub mod row_laws;
pub mod rows;
pub mod schema;
pub mod schema_laws;
