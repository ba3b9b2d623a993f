//! Error kinds surfaced by the tree core.

use vstd::prelude::*;

verus! {

/// Everything that can go wrong while building, encoding or decoding
/// index blocks and leaf data.
#[derive(Clone, Copy, Debug, PartialEq, Eq, Structural)]
pub enum Error {
    /// The encrypted half of an index block is shorter than a nonce.
    NonceMissing,
    /// The outer CBOR shape is not the expected pair of CID list and bytes.
    FormatMismatch,
    /// A record carried only some of the branch-only fields.
    InconsistentRecord,
    /// Decryption or zstd decompression failed.
    DecryptOrDecompress,
    /// A sequence constructor was handed no items.
    EmptyIterator,
    /// A read past the end of a leaf block.
    IndexOutOfBounds,
    /// The store lacks a block referenced by an index.
    NotFound,
}

} // verus!
