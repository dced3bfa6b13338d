//! A home-directory configuration manager: named profiles ("shells") of
//! dotfiles live under a managed root, one of them active at a time, and
//! filesystem mutations are recorded in an operation log before they run.
//!
//! The store and the operation log are specified and verified against the
//! directory-tree model in [`model`], acting through the [`fs::Filesystem`]
//! capability; [`memfs::MemFs`] is the library's own, fully verified
//! implementor of that capability.

pub mod config;
pub mod file_operations;
pub mod fs;
pub mod memfs;
pub mod model;
pub mod order;
pub mod paths;
