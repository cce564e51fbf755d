//! Building a pack index from a stream of decoded pack entries.
//!
//! The heart of the crate is [`index_write::File::write_data_iter_to_stream`]:
//! it ingests an ordered stream of (possibly delta-compressed) pack entries,
//! validates the stream's structural invariants, resolves every delta chain to
//! the object's full bytes, hashes each object, and encodes a sorted,
//! fan-out-indexed lookup table mapping object id to pack offset.

pub mod data;
pub mod delta;
pub mod hashing;
pub mod index_write;
pub mod pack_file;
