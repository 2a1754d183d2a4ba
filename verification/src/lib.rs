//! Deterministic build pipeline for a server installation: layered
//! configuration resolution with recursive structural merging, a hash-pinned
//! content-addressable artifact cache, and a build planner that classifies,
//! merges, substitutes and prunes files.

pub mod errors;
pub mod node;
pub mod text;
pub mod merge;
pub mod hash;
pub mod envsub;
pub mod config;
pub mod lock;
pub mod cache;
pub mod plan;
pub mod yamlio;
