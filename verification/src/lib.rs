//! Verified core of a viewer for pipe-delimited folder permission exports.
pub mod text;
pub mod strmap;
pub mod model;
pub mod interner;
pub mod tree;
pub mod trie;
pub mod loader;
pub mod sorting;
pub mod browse;
pub mod table;
