//! A verified renderer of resolved dependency graphs.
//!
//! The crate builds an in-memory dependency graph from a resolved metadata
//! document, finds duplicate package versions, and renders the graph as a
//! deterministic textual tree.

pub mod args;
pub mod common;
pub mod errors;
pub mod format;
pub mod graph;
pub mod ident;
pub mod metadata;
pub mod tree;

pub use args::Args;
pub use args::Charset;
pub use args::Opts;
pub use common::DepKind;
pub use common::RawKind;
pub use errors::TreeError;
pub use format::Pattern;
pub use ident::PackageId;
pub use ident::Version;
pub use metadata::Document;
pub use metadata::Package;
