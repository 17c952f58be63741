//! An in-memory, multi-worker table store.
//!
//! Several cooperating workers share one set of named tables. A single
//! reentrant exclusion lock serializes access; the storage engine itself has
//! no internal synchronization. Tables keep their rows in a slot arena with
//! free-list reuse, index them by key under a canonical total order, track
//! row-level listeners per worker, and record every mutation in a versioned
//! operation log from which a replica can rebuild the same content.

pub mod arena;
pub mod boundary;
pub mod codec;
pub mod content;
pub mod database;
pub mod listener;
pub mod lock;
pub mod row;
pub mod table;
pub mod value;
