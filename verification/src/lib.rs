//! Content-addressed immutable-data packaging.
//!
//! The library turns an arbitrary byte payload into a single root object
//! whose serialized form fits the network's chunk-size bound, and inverts
//! that transformation from the root object and the chunk store. It
//! composes three layers: self-encryption of the payload into a small data
//! map plus chunks, optional authenticated symmetric encryption of that
//! map, and a recursive envelope that re-applies self-encryption whenever
//! an envelope itself grows past the bound. Beside the engine stand the
//! symmetric cipher, secret derivation and random generation utilities
//! that the surrounding client code consumes.

use vstd::prelude::*;

pub mod codec;
pub mod crypto;
pub mod display;
pub mod engine;
pub mod object;
pub mod random;
pub mod se;

verus! {

/// Upper bound on the serialized size of a single network object.
pub const MAX_CHUNK_BYTES: usize = 1048576;

/// Errors raised by the packaging core.
#[derive(Debug, Clone, PartialEq, Eq, Structural)]
pub enum CoreError {
    /// Malformed or truncated bytes in a codec.
    SerializationFailure,
    /// AEAD rejection: wrong key, tampering, or tag mismatch.
    SymmetricDecipherFailure,
    /// The OS entropy source was unavailable.
    RandomDataGenerationFailure,
    /// The self-encryption engine failed.
    SelfEncryptionFailure,
    /// The network returned the wrong object type.
    ReceivedUnexpectedData,
    /// The envelope was still oversize after the bounded recursion depth.
    PayloadTooLarge,
    /// The underlying transport failed.
    NetworkFailure,
}

} // verus!
