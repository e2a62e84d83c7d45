//! A virtual file-descriptor table for a multi-cage runtime.
//!
//! Each *cage* (an isolation unit akin to a process) owns a private space of
//! virtual descriptor numbers, mapped by this table to the *real*
//! descriptors of the layer below, or to sentinel values for in-memory
//! descriptors and epoll aggregators.  The table keeps a reference count per
//! real descriptor across `fork`/`exec`/`exit`/`dup2`/`close`, decides which
//! host close handler each teardown owes, and translates descriptor sets
//! for `select`, `poll` and `epoll`.
//!
//! The whole table is an explicit [`FdTables`] value; the host wraps it in
//! whatever process-global synchronisation it wants and runs the returned
//! [`CloseCall`]s through its registered handlers once the mutation has
//! committed, so handlers can re-enter the table without deadlock.

pub mod commonconstants;
pub mod epoll;
pub mod handlers;
pub mod poll;
pub mod select;
pub mod table;
pub mod threei;

pub use commonconstants::EPOLLERR;
pub use commonconstants::EPOLLET;
pub use commonconstants::EPOLLEXCLUSIVE;
pub use commonconstants::EPOLLFD;
pub use commonconstants::EPOLLHUP;
pub use commonconstants::EPOLLIN;
pub use commonconstants::EPOLLMSG;
pub use commonconstants::EPOLLONESHOT;
pub use commonconstants::EPOLLOUT;
pub use commonconstants::EPOLLPRI;
pub use commonconstants::EPOLLRDBAND;
pub use commonconstants::EPOLLRDHUP;
pub use commonconstants::EPOLLRDNORM;
pub use commonconstants::EPOLLWAKEUP;
pub use commonconstants::EPOLLWRBAND;
pub use commonconstants::EPOLLWRNORM;
pub use commonconstants::EPOLL_CTL_ADD;
pub use commonconstants::EPOLL_CTL_DEL;
pub use commonconstants::EPOLL_CTL_MOD;
pub use commonconstants::FDTableEntry;
pub use commonconstants::FD_PER_PROCESS_MAX;
pub use commonconstants::INVALID_FD;
pub use commonconstants::NO_REAL_FD;
pub use commonconstants::NULL_FUNC;
pub use commonconstants::TOTAL_FD_MAX;
pub use commonconstants::c_int;
pub use commonconstants::epoll_event;
pub use commonconstants::is_real_fd;
pub use handlers::CloseCall;
pub use handlers::CloseHandlers;
pub use handlers::dispatch_close_call;
pub use handlers::dispatch_close_calls;
pub use handlers::register_close_handlers;
pub use table::EpollEntry;
pub use table::FdCage;
pub use table::FdTables;
pub use table::RealCount;
pub use epoll::epoll_create_helper;
pub use epoll::epoll_ctl_touches_shadow;
pub use epoll::epoll_shadow_after;
pub use epoll::get_epoll_wait_data;
pub use epoll::try_epoll_ctl;
pub use epoll::try_epoll_ctl_spec;
pub use poll::convert_realfds_back_to_virtual;
pub use poll::convert_virtualfds_to_real;
pub use poll::lemma_poll_round_trip;
pub use poll::poll_invalids;
pub use poll::poll_mapping;
pub use poll::poll_real_of;
pub use poll::poll_unreals;
pub use select::FdSet;
pub use select::_fd_isset;
pub use select::_fd_set;
pub use select::_init_fd_set;
pub use select::fdset_bit;
pub use select::get_real_bitmasks_for_select;
pub use select::get_virtual_bitmasks_from_select_result;
pub use select::mask_fits;
pub use table::close_virtualfd;
pub use table::copy_fdtable_for_cage;
pub use table::empty_fds_for_exec;
pub use table::get_optionalinfo;
pub use table::get_specific_virtual_fd;
pub use table::get_unused_virtual_fd;
pub use table::remove_cage_from_fdtable;
pub use table::return_fdtable_copy;
pub use table::set_cloexec;
pub use table::set_optionalinfo;
pub use table::init_empty_cage;
pub use table::lemma_refcount_matches_slots;
pub use table::refresh;
pub use table::translate_virtual_fd;
