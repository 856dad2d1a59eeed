//! A verified codec for the Bencode serialization format: a `Benc` value tree,
//! a recursive-descent parser from bytes, and a canonical encoder back to bytes.

pub mod bencode;
pub mod torrent;
