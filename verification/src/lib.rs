//! A verified engine for priority-ordered alternatives: competing filesystem
//! targets register under a shared name, the engine resolves the current
//! winner deterministically, persists the database in a line-based on-disk
//! format, and plans the symlink updates that reflect the resolved state.

pub mod order;
pub mod record;
pub mod group;
pub mod codec;
pub mod links;
pub mod db;
