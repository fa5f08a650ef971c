//! A persistent object layer over a byte-addressable linear store: typed,
//! versioned records identified by disk offsets, a write-back object cache
//! with bounded capacity and checkout semantics, and explicit object-lifetime
//! management that guarantees a mutated record is flushed before its handle
//! disappears and that no two holders mutate the same record concurrently.

use vstd::prelude::*;

pub mod store;
pub mod storable;
pub mod record;
pub mod obj;
pub mod cache;

verus! {

/// Identifier of a linear store instance.
pub type StoreId = u8;

/// The identifier that no real store carries.
pub const INVALID_STORE_ID: StoreId = 0xff;

/// Identity of a persisted record: an offset into the linear store.
/// Offset zero stands for "null" (no address).
#[derive(Clone, Copy, Debug, PartialEq, Eq, Hash, Structural)]
pub struct DiskAddress(pub usize);

impl DiskAddress {
    /// True of the null address.
    pub open spec fn is_null(self) -> bool {
        self.0 == 0
    }

    /// The raw offset this address stands for (zero for null).
    pub fn get(&self) -> (r: usize)
        ensures
            r == self.0,
    {
        self.0
    }

    /// The null address.
    pub fn null() -> (r: Self)
        ensures
            r.is_null(),
    {
        DiskAddress(0)
    }
}

/// The error kinds this layer surfaces; each is distinguishable so callers
/// can decide between retry and fatal handling.
#[derive(Clone, Copy, Debug, PartialEq, Eq, Structural)]
pub enum ShaleError {
    /// An object is in a state that makes the requested operation
    /// meaningless (for example, deriving a sub-view from a dirty parent).
    InvalidObj { addr: usize },
    /// Malformed on-disk bytes: a decoded length does not match what the
    /// record's layout demands.
    InvalidAddressLength { expected: u64, found: u64 },
    /// The requested byte range cannot be read from the store.
    InvalidCacheView { offset: usize, size: u64 },
    /// The backing medium rejected a write.
    Io,
    /// A write was attempted on a read-only store.
    ImmutableWrite,
}

/// Returned by a mutation whose result no longer fits the length ceiling the
/// object was constructed with; the in-memory value stays mutated but is not
/// marked dirty, so it never reaches disk silently.
#[derive(Clone, Copy, Debug, PartialEq, Eq, Structural)]
pub struct ObjWriteSizeError;

} // verus!
