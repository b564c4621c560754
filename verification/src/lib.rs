//! An in-memory store of per-owner directory trees.
//!
//! Each owner (an opaque unsigned integer) holds an isolated bucket: an
//! identifier generator plus a map from identifiers to directory records.
//! The store offers create, get, rename and cascading delete; every
//! operation is specified and verified against a mathematical model of
//! the bucket map.

pub mod api;
pub mod da_directory;
pub mod entity;
pub mod error;
pub mod mem;
pub mod prelude;
