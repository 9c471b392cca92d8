use vstd::prelude::*;

verus! {

/// Failure taxonomy shared by ingestion and storage.
///
/// `SourceUnavailable` marks a fetch that did not return a success status,
/// `MalformedPayload` a feed record whose mandatory numeric field does not
/// parse, `DuplicateKey` an insertion conflict, `StorageOpenFailure` a store
/// that could not be opened or created, and `NotFound` a lookup of a year
/// that has no open store.
#[derive(Clone, Copy, Debug, PartialEq, Eq, Structural)]
pub enum IngestError {
    SourceUnavailable,
    MalformedPayload,
    DuplicateKey,
    StorageOpenFailure,
    NotFound,
}

} // verus!
