//! An authenticated photo-catalog library.
//!
//! The catalog of record lives in an external object store; every read
//! rebuilds the in-memory view from the stored metadata objects. This crate
//! holds the verified core: the key-naming scheme, the catalog projection
//! (listing, tag aggregation, tag filtering, fuzzy-search ranking),
//! stateless pagination, and the signed-session identity gate.

pub mod asset;
pub mod catalog;
pub mod codec;
pub mod config;
pub mod error;
pub mod hex;
pub mod pagination;
pub mod search;
pub mod session;
pub mod text;

use vstd::prelude::*;

verus! {

} // verus!
