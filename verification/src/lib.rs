//! Local artifact cache layout and fetch layer.
//!
//! The crate derives a safe cache root directory, computes the on-disk
//! layout that shards artifacts by the first two hex characters of their
//! content hash, checks that a candidate cache directory is safe for the
//! current user to own, parses HTTP provider configuration, and hardens a
//! freshly fetched artifact tree by making its entries read-only.

pub mod dotslash_cache;
pub mod http_provider;
pub mod make_tree_read_only;
pub mod paths;
pub mod safety;
pub mod sys;

pub use dotslash_cache::DotslashCache;
pub use http_provider::HttpProvider;
pub use make_tree_read_only::make_tree_entries_read_only;
pub use paths::join_path;
