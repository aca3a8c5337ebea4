//! Consolidates a multi-file crate into one syntax tree and finds the modules
//! that are reachable from the crate root.
//!
//! - `path` holds module paths and their algebra.
//! - `bundle` decides which out-of-line module is loaded next, where its file
//!   is looked for and where the loaded items go. The caller reads the files.
//! - `mod_tree` builds the scope tree: what each scope declares, imports and
//!   refers to.
//! - `elimination` flattens the scope tree into a map from module path to
//!   scope and follows the references from the crate root.

pub mod bundle;
pub mod elimination;
pub mod error;
pub mod mod_tree;
pub mod path;
pub mod text;
