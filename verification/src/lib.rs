//! A verified core for a multi-project workspace manager built around
//! pinned flake references and merged lockfiles.
//!
//! The crate models reference URLs, per-environment update strategies,
//! rooted input-graph lockfiles and the merge of many such graphs into
//! one. Subprocess calls and file I/O live outside the library; the
//! library computes over plain values handed in by its callers.
pub mod cli;
pub mod codec;
pub mod config;
pub mod flake;
pub mod lockfile;
pub mod merge;
pub mod strmap;
pub mod strs;
pub mod workspace;
