//! Concurrent directory-size aggregation, modelled and verified.
//!
//! The crate verifies the logic of a directory-size explorer: summing the
//! sizes of all regular files under a root (`tree`), the per-directory step
//! that a pool of workers runs against a shared queue (`walk`), sorting and
//! rendering a listing of immediate children (`render`), and converting a
//! byte count into a human-readable magnitude string (`format`).

pub mod format;
pub mod render;
pub mod tree;
pub mod walk;
