//! Local search over markdown collections: chunking, frontmatter, filters and the document graph.

pub mod dates;
pub mod db;
pub mod echo_laws;
pub mod frontmatter;
pub mod frontmatter_laws;
pub mod index;
pub mod preprocess;
pub mod preprocess_laws;
pub mod search;
pub mod text;
pub mod yaml;
