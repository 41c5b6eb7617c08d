//! An in-memory directed acyclic graph container keyed by ordered vertices.
//!
//! The container maps each registered vertex to the set of vertices it points
//! to, rejects any edge insertion that would close a directed cycle, and
//! offers cascading removal of a vertex together with its reachable
//! descendants.

pub mod dag;
pub mod model;
