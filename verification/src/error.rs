use vstd::prelude::*;

verus! {

/// The error kinds of the store.
///
/// `NotFound` reports a missing object or ref; it is expected and drives the
/// caller's cache-miss logic.  `ResourceError` reports an exhausted or
/// unavailable resource; the store stays structurally intact.  `Corrupt`
/// reports data that exists but fails an internal consistency check, kept
/// distinct from `NotFound` so a caller can tell a cache miss from damage.
#[derive(Clone, Copy, PartialEq, Eq, Structural, Debug)]
pub enum StoreError {
    NotFound,
    ResourceError,
    Corrupt,
}

/// The outcome of publishing staged content under an identity.
///
/// `AlreadyExists` is not a failure: it signals that an object with that
/// identity was already stored, so the staged copy was redundant and was
/// discarded (the dedup fast path).
#[derive(Clone, Copy, PartialEq, Eq, Structural, Debug)]
pub enum PublishOutcome {
    Stored,
    AlreadyExists,
}

} // verus!
