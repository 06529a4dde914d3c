//! Replication of simulation state between processes: a generational arena
//! whose objects carry a process-independent sync id, and a structural
//! diff/patch protocol over it.

pub mod diffable;
pub mod ids;
pub mod patch;
pub mod sync_arena;
pub mod arenaiter;
pub mod swapiter;
pub mod sync_vector;
pub mod wire;
pub mod world;
pub mod transport;
