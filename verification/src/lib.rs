//! An archetype-based entity-component-system runtime.
//!
//! - `entity`, `entities`: entity handles with generations, and the registry
//!   that knows which entity is alive and where it is stored.
//! - `type_set`, `archetype`: sets of type keys, and the column storage that
//!   groups the entities with the same component types.
//! - `rows`: where every entity stands after the staged work, step by step.
//! - `tag`: markers on entities that move no row.
//! - `world`, `commands`: the three together, with staged structural
//!   changes, and what a system notes of the changes it wants.
//! - `query`: which stored entities have given components and tags.
//! - `prw_lock`, `resource`, `event`: the counted read/write lock, the
//!   resources behind it, and the queue of events.
//! - `system`, `schedule`, `execution`, `dispatcher`: what systems declare,
//!   the order in which the handlers of an event run, the run itself, and the
//!   registry of systems.
//! - `ard_core`, `time`: the events of the game loop and the system that
//!   keeps them going.
//!
//! Types are named by `u64` keys. Component values are of one type `C` that
//! the user of the library chooses.

pub mod archetype;
pub mod ard_core;
pub mod commands;
pub mod dispatcher;
pub mod entities;
pub mod entity;
pub mod event;
pub mod execution;
pub mod prw_lock;
pub mod query;
pub mod resource;
pub mod rows;
pub mod schedule;
pub mod system;
pub mod tag;
pub mod time;
pub mod type_set;
pub mod world;
