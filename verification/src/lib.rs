#![verifier::loop_isolation(false)]
//! Decoder core for a self-describing binary message format.
//!
//! A message carries a table of type definitions followed by typed values.
//! This crate validates the header and its type table, and can then advance
//! a cursor past any encoded value without materializing it, which is the
//! basis for selective, field-by-field decoding.

pub mod cursor;
pub mod errors;
pub mod header;
pub mod laws;
pub mod skip;
pub mod utf8;
pub mod varint;
