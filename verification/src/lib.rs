//! Patched dependencies for remote builds.
//!
//! A manifest may override dependencies with crates that lie somewhere on the
//! local machine.  Before the project is built on another machine, each of
//! those paths has to point into a copy of the workspace that holds the
//! crate.  This library finds the workspaces that the override paths of a
//! manifest point into, gives each a place beside the remote build directory,
//! and rewrites the paths to match.  Nothing else in the manifest is changed:
//! every other table, key and value is as before.  How the manifest is
//! written out is up to `toml_edit`, which keeps comments and spacing but
//! writes no carriage returns.
//!
//! - [`path`]: paths as sequences of components;
//! - [`workspace`]: the workspaces and the registry that holds them;
//! - [`manifest`]: the manifest document and its override table;
//! - [`rewrite`]: the rewrite of the override paths;
//! - [`patches`]: the rewrite of a whole manifest;
//! - [`transfer`]: what the copy to the build server is made of;
//! - [`error`]: the ways in which a rewrite fails.

pub mod error;
pub mod manifest;
pub mod patches;
pub mod path;
pub mod rewrite;
pub mod transfer;
pub mod workspace;
