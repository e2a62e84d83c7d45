//! Constants and value types shared by every part of the table: the slot
//! capacity, the sentinel descriptor values, the table entry itself, and the
//! epoll event layout.

use vstd::prelude::*;

verus! {

/// Per-process maximum number of virtual descriptors in one cage.
pub const FD_PER_PROCESS_MAX: u64 = 1024;

/// Global maximum number of descriptors (not enforced by this table).
pub const TOTAL_FD_MAX: u64 = 4096;

/// Sentinel: the slot is backed by an in-memory object, not a real
/// descriptor.
pub const NO_REAL_FD: u64 = 0xff_abcd_ef01;

/// Sentinel: the slot is an epoll aggregator; its `optionalinfo` indexes the
/// epoll side table.
pub const EPOLLFD: u64 = 0xff_abcd_ef02;

/// Sentinel: placeholder for an invalid descriptor, returned only by the
/// poll helper and never stored in a table.
pub const INVALID_FD: u64 = 0xff_abcd_ef00;

/// One table entry, looked up by virtual fd.
#[derive(Clone, Copy, Debug, PartialEq, Eq, Structural)]
pub struct FDTableEntry {
    /// Underlying descriptor (a kernel fd or a virtual fd of the layer
    /// below), or one of the sentinels `NO_REAL_FD` / `EPOLLFD`.
    pub realfd: u64,
    /// Should this slot be discarded on exec?
    pub should_cloexec: bool,
    /// Extra host data, used with `NO_REAL_FD` and `EPOLLFD` slots.
    pub optionalinfo: u64,
}

/// A `realfd` value that denotes a descriptor owned by the layer below, as
/// opposed to one of the three reserved sentinels.
pub open spec fn is_real_fd(realfd: u64) -> bool {
    realfd != NO_REAL_FD && realfd != EPOLLFD && realfd != INVALID_FD
}

#[allow(non_snake_case)]
/// A close handler which does nothing; the default for all three kinds.
pub fn NULL_FUNC(_unused: u64) {
}

/// `epoll_ctl` operation: watch a new descriptor.
pub const EPOLL_CTL_ADD: i32 = 1;

/// `epoll_ctl` operation: change the events of a watched descriptor.
pub const EPOLL_CTL_MOD: i32 = 2;

/// `epoll_ctl` operation: stop watching a descriptor.
pub const EPOLL_CTL_DEL: i32 = 3;

#[allow(non_camel_case_types)]
/// The C int type the epoll event flag constants use.
pub type c_int = i32;

/// Epoll event flag, equal to the Linux ABI value.
pub const EPOLLIN: c_int = 0x1;

/// Epoll event flag, equal to the Linux ABI value.
pub const EPOLLPRI: c_int = 0x2;

/// Epoll event flag, equal to the Linux ABI value.
pub const EPOLLOUT: c_int = 0x4;

/// Epoll event flag, equal to the Linux ABI value.
pub const EPOLLERR: c_int = 0x8;

/// Epoll event flag, equal to the Linux ABI value.
pub const EPOLLHUP: c_int = 0x10;

/// Epoll event flag, equal to the Linux ABI value.
pub const EPOLLRDNORM: c_int = 0x40;

/// Epoll event flag, equal to the Linux ABI value.
pub const EPOLLRDBAND: c_int = 0x80;

/// Epoll event flag, equal to the Linux ABI value.
pub const EPOLLWRNORM: c_int = 0x100;

/// Epoll event flag, equal to the Linux ABI value.
pub const EPOLLWRBAND: c_int = 0x200;

/// Epoll event flag, equal to the Linux ABI value.
pub const EPOLLMSG: c_int = 0x400;

/// Epoll event flag, equal to the Linux ABI value.
pub const EPOLLRDHUP: c_int = 0x2000;

/// Epoll event flag, equal to the Linux ABI value.
pub const EPOLLEXCLUSIVE: c_int = 0x1000_0000;

/// Epoll event flag, equal to the Linux ABI value.
pub const EPOLLWAKEUP: c_int = 0x2000_0000;

/// Epoll event flag, equal to the Linux ABI value.
pub const EPOLLONESHOT: c_int = 0x4000_0000;

/// Epoll event flag, equal to the Linux ABI value.
pub const EPOLLET: c_int = -0x8000_0000;

#[allow(non_camel_case_types)]
/// Event description for the epoll shadow table; matches the kernel layout.
#[derive(Clone, Copy, Debug)]
pub struct epoll_event {
    /// Event types to look at.
    pub events: u32,
    /// Opaque user data, passed through unchanged.
    pub u64: u64,
}

} // verus!
