//! The core of an entity-component-system runtime: an arena that stores components
//! as bytes behind stable records, a per-cell reader/writer semaphore word, queries
//! over the components of each type, and a dependency-ordered schedule of tasks.

pub mod access;
pub mod allocator;
pub mod chunk;
pub mod entity;
pub mod frosty_box;
pub mod graph;
pub mod handle;
pub mod llqueue;
pub mod query;
pub mod schedule;
pub mod spawner;
pub mod system;
pub mod tag_map;
pub mod thread;
