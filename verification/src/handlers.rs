//! Close handlers.
//!
//! On descriptor teardown the table decides which host callback is owed:
//! `intermediate` when a real descriptor still has references left, `last`
//! when the final reference went away, and `unreal` when an in-memory
//! descriptor was discarded.  The table operations return those decisions as
//! [`CloseCall`] values, committed state first; the host then runs them
//! through its registered handler set with no table borrow held, which lets
//! a handler re-enter the table freely.

use vstd::prelude::*;

verus! {

/// One owed close-handler invocation, in the order the teardown produced it.
#[derive(Clone, Copy, Debug, PartialEq, Eq, Structural)]
pub enum CloseCall {
    /// A real descriptor lost one reference but others remain.
    Intermediate(u64),
    /// A real descriptor lost its last reference; the argument is the
    /// descriptor the host may now really close.
    Last(u64),
    /// An unreal descriptor was discarded; the argument is its
    /// `optionalinfo`.
    Unreal(u64),
}

/// A set of host close handlers, one per kind of [`CloseCall`].
pub struct CloseHandlers<F: Fn(u64), G: Fn(u64), H: Fn(u64)> {
    /// Run when a real descriptor still has references left.
    pub intermediate: F,
    /// Run when a real descriptor lost its last reference.
    pub last: G,
    /// Run when an unreal descriptor was discarded.
    pub unreal: H,
}

/// Packs three host callbacks into a handler set.  Call it again to build a
/// replacement set; the host decides which set its dispatch uses.
pub fn register_close_handlers<F: Fn(u64), G: Fn(u64), H: Fn(u64)>(
    intermediate: F,
    last: G,
    unreal: H,
) -> (r: CloseHandlers<F, G, H>)
    ensures
        r.intermediate == intermediate,
        r.last == last,
        r.unreal == unreal,
{
    CloseHandlers { intermediate, last, unreal }
}

/// Runs one owed close call through the matching handler.
pub fn dispatch_close_call<F: Fn(u64), G: Fn(u64), H: Fn(u64)>(
    handlers: &CloseHandlers<F, G, H>,
    call: CloseCall,
)
    requires
        forall|x: u64| call_requires(handlers.intermediate, (x,)),
        forall|x: u64| call_requires(handlers.last, (x,)),
        forall|x: u64| call_requires(handlers.unreal, (x,)),
{
    match call {
        CloseCall::Intermediate(realfd) => (handlers.intermediate)(realfd),
        CloseCall::Last(realfd) => (handlers.last)(realfd),
        CloseCall::Unreal(optionalinfo) => (handlers.unreal)(optionalinfo),
    }
}

/// Runs a sequence of owed close calls through the matching handlers, in
/// order.
pub fn dispatch_close_calls<F: Fn(u64), G: Fn(u64), H: Fn(u64)>(
    handlers: &CloseHandlers<F, G, H>,
    calls: &Vec<CloseCall>,
)
    requires
        forall|x: u64| call_requires(handlers.intermediate, (x,)),
        forall|x: u64| call_requires(handlers.last, (x,)),
        forall|x: u64| call_requires(handlers.unreal, (x,)),
{
    let mut i: usize = 0;
    while i < calls.len()
        invariant
            forall|x: u64| call_requires(handlers.intermediate, (x,)),
            forall|x: u64| call_requires(handlers.last, (x,)),
            forall|x: u64| call_requires(handlers.unreal, (x,)),
        decreases calls.len() - i,
    {
        dispatch_close_call(handlers, calls[i]);
        i = i + 1;
    }
}

} // verus!
