//! Core of the `bob` build orchestrator: deterministic directory
//! fingerprinting, per-project rebuild decisions, classification of built
//! artifacts, and a reversible binary delta format for directory trees.
//!
//! Directories are modelled as in-memory trees of relative paths and file
//! contents; the surrounding binary performs the filesystem and container
//! work and hands plain values to this library.

pub mod apply;
pub mod botconfig;
pub mod buildinfo;
pub mod builder;
pub mod bytes;
pub mod codec;
pub mod config;
pub mod diff;
pub mod extract;
pub mod hashing;
pub mod laws;
pub mod patching;
pub mod tree;
