use vstd::prelude::*;

verus! {

/// Failure cases surfaced by construction and persistence operations.
///
/// A lookup miss is deliberately not an error: every lookup operation
/// returns an `Option` instead.
#[derive(Debug)]
pub enum Error {
    /// Construction: the token list needs more than 31 bits to index.
    TooManyTokens { len: usize },
    /// Construction: two entries of the build input share identical bytes.
    /// `id` is the identifier the reported occurrence would have received.
    DuplicateToken { token: Vec<u8>, id: usize },
    /// Construction: the backing search-structure builder rejected the key set.
    BuildRejected,
    /// Persistence: the byte stream ends before the span it announces.
    Truncated,
    /// Persistence: the byte sink cannot hold the encoded image.
    OutOfSpace,
    /// Persistence: the framed payload is not a valid encoded structure.
    InvalidPayload,
}

} // verus!
