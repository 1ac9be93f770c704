//! An in-memory hierarchical key index: a tree keyed by slash-delimited
//! path segments, mapping full paths to opaque string identifiers.

pub mod laws;
pub mod paths;
pub mod tree;

pub use tree::Tree;
