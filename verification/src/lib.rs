//! A uniform outbound connection pool.
//!
//! The pool keeps an approximately equal number of live connections to
//! every host currently resolved for a logical service and dispatches
//! outbound items across them in round-robin fashion with cooperative
//! backpressure.

use vstd::prelude::*;

pub mod aligner;
pub mod events;
pub mod failures;
pub mod laws;
pub mod pool;
pub mod registry;
pub mod report;
pub mod seqtools;
pub mod snapshot;

verus! {

/// A constructor for a uniform connection pool with lazy connections.
pub struct LazyUniform {
    /// Maximum number of outstanding connections per host.
    pub conn_limit: u32,
    /// Base reconnect timeout in milliseconds; the effective delay after a
    /// connect failure is sampled uniformly from `[t/2, t*3/2)`.
    pub reconnect_timeout_ms: u64,
}

} // verus!
