//! Fasttalk: a compact binary codec for flat sequences of scalar values.
//!
//! A packet starts with a packed-nibble header that run-length-compresses the
//! per-value type codes, followed by each value's content bytes in order.
//! `codec::encode` and `codec::decode` are the two entry points; the other
//! modules hold the data model, the header compression and the per-value
//! content layout, each with the specification functions the contracts use.

pub mod block;
pub mod codec;
pub mod laws;
pub mod content;
pub mod header;



