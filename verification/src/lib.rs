//! A uniform spatial hash grid for 2D point entities.
//!
//! The grid buckets entity identifiers into square cells of a fixed size so
//! that "what is near position P" queries are cheap. Two update strategies
//! are offered for a per-tick simulation:
//!
//! - full rebuild: clear every bucket, then reinsert every entity from its
//!   current position (`rebuild`);
//! - incremental: each tracked entity remembers its last occupied cell, and
//!   only entities whose cell changed are moved (`update`).
//!
//! Positions are integer world coordinates; the grid covers the half-open
//! square region `[0, extent)` on both axes, and positions outside it are
//! silently left unindexed.

pub mod equivalence;
pub mod grid;
pub mod incremental;
pub mod rebuild;
