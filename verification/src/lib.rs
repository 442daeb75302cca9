//! A verified cache layer for policy-decision results.
//!
//! Composite request keys (subject, object, action, ...) are serialized by an
//! injective codec, decision values by a round-tripping codec, and the cache
//! operations (`get`, `has`, `set`, `clear`, `set_capacity`) are proved
//! against a key-value store boundary.  A Redis-backed client mirrors the
//! same operations over a live store.

pub mod backend;
pub mod cache;
pub mod codec;
pub mod store;
pub mod values;
