//! The events the outside world delivers to the pool driver.
//!
//! The driver is a single cooperative task: it never blocks, and all
//! progress of its outstanding work — connect attempts resolving, a
//! connection's sink becoming writable or failing — reaches it as
//! events queued by the runtime and drained at the driver's own pace.

use vstd::prelude::*;

use crate::snapshot::AddressSnapshot;

verus! {

/// Completion of some outstanding activity of one connection handle.
pub enum ConnEvent {
    /// The connect attempt behind the handle resolved, well or not.
    ConnectDone { id: usize, success: bool },
    /// The connection's sink can take an item again.
    SinkReady { id: usize },
    /// The connection's sink stopped taking items for now.
    SinkUnready { id: usize },
    /// The connection's sink rejected a push or a flush; the connection
    /// is torn down.
    SinkFailed { id: usize },
    /// A connection asked to close has flushed its buffered data and
    /// finished cleanly.
    SinkFlushed { id: usize },
}

/// One step of the lazy, push-style address-resolution sequence.
pub enum AddrEvent {
    /// A fresh snapshot of the resolved addresses.
    Snapshot(AddressSnapshot),
    /// The address stream is over; the pool begins graceful shutdown.
    StreamEnd,
}

} // verus!
