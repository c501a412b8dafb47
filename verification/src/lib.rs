//! Core of a monorepo build-dependency analyzer: a canonical package
//! identity and path model, an inference protocol that turns package
//! directories into typed targets with declared dependencies, a graph
//! builder with partial-failure recovery, and a dependency graph with
//! idempotent insertion and multi-source reverse-dependency queries.

pub mod commands;
pub mod graph;
pub mod infer;
pub mod paths;
pub mod strutil;
pub mod types;
