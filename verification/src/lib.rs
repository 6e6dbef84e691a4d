//! An index over the immutable storage layers of one timeline.
//!
//! Every layer covers a rectangle in the plane of keys and log positions.
//! The index answers which layer holds the version of a key that is current
//! at a given log position, and how costly it is to rebuild the keys of a
//! partition at a given position.
pub mod batch;
pub mod coverage;
pub mod difficulty;
pub mod hex;
pub mod historic;
pub mod key;
pub mod keyspace;
pub mod layer;
pub mod layer_map;
pub mod laws;
pub mod lsn;
pub mod overlay;
pub mod query;
pub mod range;
pub mod sorted;
