//! A minimal plaintext key-value store.
//!
//! A store holds an in-memory mapping from string keys to string values,
//! together with the path of its backing file and a delimiter string. The
//! backing file holds one `key<delimiter>value` record per line; the whole
//! file is parsed into the mapping when a store is opened, and the whole
//! mapping is re-serialized after every mutation. All parsing, serialization
//! and mapping logic lives here and is verified; reading and writing the
//! backing file is left to the embedding program.

pub mod laws;
pub mod store;
pub mod text;
