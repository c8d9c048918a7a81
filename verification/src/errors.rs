//! The error taxonomy of the storage stack.

use vstd::prelude::*;

verus! {

/// Every failure a storage operation can report.
///
/// `NotFound` is a lookup or delete on an absent id. `StorageFull` means the
/// backing region (or a segment's share of it) cannot be extended;
/// `MemoryFull` is the same condition surfaced at the service boundary.
/// `InvalidInput` is caller-supplied data that fails validation before any
/// mutation. `StorageCorrupt` means persisted metadata was present but
/// malformed at recovery time. `ValueTooLarge` is a map value over the
/// bounded slot size, `EncodingError` a record that does not fit its encoded
/// bound or bytes that decode to no record, and `OutOfBounds` a segment
/// access beyond the segment's current length.
#[derive(Clone, Copy, Debug, PartialEq, Eq, Structural)]
pub enum StorageError {
    NotFound,
    StorageFull,
    MemoryFull,
    InvalidInput,
    StorageCorrupt,
    ValueTooLarge,
    EncodingError,
    OutOfBounds,
}

} // verus!
