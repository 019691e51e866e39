//! The pool's side channels: monotonic counters, the error trace, and
//! the outcomes of the three driver operations.

use vstd::prelude::*;

verus! {

/// `c` advanced by one, saturating at the top of the range.
pub open spec fn spec_bump(c: u64) -> u64 {
    if c == u64::MAX { c } else { (c + 1) as u64 }
}

/// Advance a counter by one, saturating at the top of the range.
pub fn bump(c: u64) -> (r: u64)
    ensures
        r == spec_bump(c),
{
    if c < u64::MAX { c + 1 } else { c }
}

/// Monotonic counters describing the pool's work.
pub struct Metrics {
    pub connection_attempt: u64,
    pub connection: u64,
    pub connection_error: u64,
    pub connection_abort: u64,
    pub disconnect: u64,
    pub blacklist_add: u64,
    pub blacklist_remove: u64,
}

impl Metrics {
    pub fn new() -> (r: Metrics)
        ensures
            r == (Metrics {
                connection_attempt: 0u64, connection: 0u64, connection_error: 0u64,
                connection_abort: 0u64, disconnect: 0u64, blacklist_add: 0u64,
                blacklist_remove: 0u64,
            }),
    {
        Metrics {
            connection_attempt: 0,
            connection: 0,
            connection_error: 0,
            connection_abort: 0,
            disconnect: 0,
            blacklist_add: 0,
            blacklist_remove: 0,
        }
    }
}

/// Why the pool began shutting down.
pub enum ShutdownReason {
    /// The address stream ended.
    AddressStreamClosed,
}

/// The error trace: pure, non-blocking records of what went wrong.
pub struct ErrorTrace {
    /// Set once, when the pool begins shutting down.
    pub shutdown: Option<ShutdownReason>,
    /// The address of each failed connect attempt, in order.
    pub connection_errors: Vec<u64>,
    /// The address of each connection torn down by its sink, in order.
    pub sink_errors: Vec<u64>,
}

impl ErrorTrace {
    pub fn new() -> (r: ErrorTrace)
        ensures
            r.shutdown is None,
            r.connection_errors@.len() == 0,
            r.sink_errors@.len() == 0,
    {
        ErrorTrace { shutdown: None, connection_errors: Vec::new(), sink_errors: Vec::new() }
    }
}

/// One item handed to one connection's sink.
pub struct Delivery<I> {
    /// The handle index of the connection that took the item.
    pub conn: usize,
    pub item: I,
}

/// What `start_send` reports.
pub enum SendOutcome<I> {
    /// The item was accepted by some ready connection.
    Ready,
    /// No connection could take the item now; it comes back to the
    /// caller, who polls again later.
    NotReady(I),
    /// The pool is closing and all outstanding work has drained.
    Done,
}

/// What `poll_complete` reports.
pub enum PollOutcome {
    /// The pool is a continuous conduit; there is always more that could
    /// come.
    NotReady,
    /// The pool is closing and all outstanding work has drained.
    Done,
}

/// What `close` reports.
pub enum CloseOutcome {
    /// All outstanding work has already drained.
    Ready,
    /// Outstanding work remains; keep polling.
    NotReady,
}

} // verus!
