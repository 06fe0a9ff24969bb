//! Chunked n-dimensional arrays in a key/value store, in the Zarr V3 layout.
//!
//! - [`indices`], [`array_subset`], [`chunk_grid`]: the coordinate algebra of arrays,
//!   regions and chunks.
//! - [`chunk_key_encoding`]: from chunk coordinates to store keys.
//! - [`codec`]: the codec chain that turns a chunk's element bytes into the stored bytes
//!   and back.
//! - [`storage`]: store keys, the store interface and an in-memory store.
//! - [`array`]: arrays, and chunk and region reads and writes.
//! - [`config`], [`group_metadata`], [`bytes`]: configuration, group metadata and byte
//!   helpers.
pub mod array;
pub mod array_subset;
pub mod bytes;
pub mod chunk_grid;
pub mod chunk_key_encoding;
pub mod codec;
pub mod config;
pub mod fill_value;
pub mod group_metadata;
pub mod indices;
pub mod storage;
