//! A persistent, content-addressed tree for ordered sequences of typed
//! events: the index node model, compact key sequences, compressed leaf
//! arrays, and the encrypted, compressed wire codec for index blocks.

pub mod cbor;
pub mod codec;
pub mod compactseq;
pub mod index;
pub mod error;
pub mod links;
pub mod semigroup;
pub mod zarray;
