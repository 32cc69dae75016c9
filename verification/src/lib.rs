//! Order-independent identity hashes for named sets of string features.
//!
//! A feature set is identified by the SHA-256 digest of its canonical form:
//! the feature names without repetition, in increasing byte order, written
//! one after another with nothing in between.

pub mod canonical;
pub mod colset;
pub mod container;
pub mod hashing;
pub mod hex;
pub mod order;

pub use colset::{add_one_to_colset, derive_nickname, hash_colset, identical_colset_hash, ColSet};
pub use container::ColSetContainer;
