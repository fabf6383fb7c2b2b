//! An in-memory, path-addressed tree of files and folders, the kind of
//! structure that backs a file-explorer sidebar: one `Root` owns a hierarchy
//! of `Folder` and `File` nodes, each addressed by a path string.
//!
//! The four canonical operations — insert, remove, toggle the open flag, and
//! describe — are specified against a mathematical view of the tree
//! ([`view::NodeView`]) and verified to meet those specifications.

pub mod item;
pub mod laws;
pub mod paths;
pub mod view;

pub use item::FileSystemItem;
pub use item::TreeError;
