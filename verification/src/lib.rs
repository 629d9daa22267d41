//! A verified core for a repository-inventory tool.
//!
//! The library keeps a registry of repository root paths, discovers
//! repository roots by walking a directory tree, reconciles what was
//! discovered against what is already known, and classifies working-tree
//! status and per-remote fetch outcomes.  All paths and file contents are
//! handled as sequences of characters; the surrounding binary performs the
//! actual filesystem and network work and hands the results in as plain
//! values.

pub mod fetch;
pub mod lines;
pub mod reconcile;
pub mod registry;
pub mod scan;
pub mod status;
