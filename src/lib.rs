//! Publishes the packages of a workspace to a registry in dependency order.
//!
//! The library holds the verified core: filtering the workspace snapshot into
//! a dependency graph, ordering that graph by repeated elimination passes, and
//! the per-package publish state machine that the caller drives.

pub mod graph;
pub mod name_map;
pub mod order;
pub mod metadata;
pub mod publish;
pub mod cli;
