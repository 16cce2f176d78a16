//! A layered proof-of-replication engine over a depth-robust graph.
//!
//! The crate packs raw bytes into field-sized frames (`fr32`), builds a
//! ZigZag graph whose parents come from a seeded bucket sampler and a keyed
//! Feistel permutation, replicates a sector layer by layer, and produces and
//! checks the replication proofs.

pub mod drgporep;
pub mod drgraph;
pub mod feistel;
pub mod field;
pub mod fr32;
pub mod hasher;
pub mod internal;
pub mod layered_drgporep;
pub mod merkle;
pub mod responses;
pub mod sector_store;
pub mod zigzag_graph;
