//! Persistence core of a columnar table store: an append-only structural log,
//! the replay algorithm that reconstructs live state from it, and an
//! epoch-based version manager that exposes atomic, snapshot-consistent
//! mutations of the table / row-group / delete-vector universe.

pub mod keys;
pub mod live_set;
pub mod logical_plan;
pub mod bootstrap;
pub mod catalog;
pub mod ids;
pub mod manifest;
pub mod version;
