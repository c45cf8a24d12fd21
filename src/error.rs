use vstd::prelude::*;

verus! {

/// The ways an operation of the storage core can fail.
#[derive(Debug, Clone, Copy, PartialEq, Eq, Structural)]
pub enum DbError {
    /// A block lies beyond the end of the data file, or a write had the wrong size.
    Io,
    /// Bytes cannot be read under the schema or layout they should follow.
    Corruption,
    /// A serialized tuple does not fit in the payload area of an empty page.
    TupleTooLarge,
    /// Every frame of the buffer pool is pinned.
    PoolExhausted,
    /// A tuple's values do not match the schema in count or type.
    SchemaMismatch,
    /// A name that must be unique is already taken.
    Duplicate,
    /// A block number or object id does not fit the 32-bit field that stores it.
    Overflow,
}

} // verus!
