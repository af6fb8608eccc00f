//! A stable-key arena: a container that hands out integer keys to inserted
//! values, keeps a key pointing at the same value for the lifetime of its
//! entry, reuses reclaimed keys last-removed-first, and supports grouping a
//! batch of mutations into a transaction that can be rolled back atomically.
pub mod arena;
pub mod laws;
pub mod model;
pub mod transaction;
