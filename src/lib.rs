//! Semantic code search over a local source tree: a declaration chunker
//! for Go, Rust and Python, the language registry, the metadata side of the vector store,
//! the decisions of the indexing pipeline, and the text and path rules of
//! the tools.

pub mod text;
pub mod chunker;
pub mod config;
pub mod store;
pub mod indexer;
pub mod report;
pub mod paths;
