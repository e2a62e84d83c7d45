//! Error tags and reserved cage identifiers.
//!
//! The table returns errors as plain numeric tags matching the Linux errno
//! values; the exact numbers are opaque to callers, which should compare
//! against these named constants only.

use vstd::prelude::*;

verus! {

/// Return value used for the error side of every fallible table call.
pub type RetVal = u64;

/// Lookup of an empty slot.
pub const EBADFD: RetVal = 77;

/// The slot array is full.
pub const EMFILE: RetVal = 24;

/// Illegal argument: bad `nfds`, bad epoll op, or a selected empty slot.
pub const EINVAL: RetVal = 22;

/// Out-of-range virtual descriptor, or an epoll call on a non-epoll slot.
pub const EBADF: RetVal = 9;

/// An epoll add of a descriptor that is already watched.
pub const EEXIST: RetVal = 17;

/// An epoll modify or delete of a descriptor that is not watched.
pub const ENOENT: RetVal = 2;

/// Cage pre-inserted into a fresh table so callers have something to fork.
pub const TESTING_CAGEID: u64 = 0;

/// Additional reserved cage identifier for callers that need a second cage.
pub const TESTING_CAGEID1: u64 = 1;

/// Additional reserved cage identifier.
pub const TESTING_CAGEID5: u64 = 5;

/// Additional reserved cage identifier.
pub const TESTING_CAGEID7: u64 = 7;

/// Additional reserved cage identifier.
pub const TESTING_CAGEID10: u64 = 10;

/// Additional reserved cage identifier.
pub const TESTING_CAGEID11: u64 = 11;

/// A cage identifier that is never present in a fresh table.
pub const INVALID_CAGEID: u64 = 0xffff_ffff_ffff_ffff;

} // verus!
