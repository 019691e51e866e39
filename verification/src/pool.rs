//! The pool driver: the top-level sink that reconciles a dynamic address
//! set with a live connection set, routes each outbound item to an
//! available connection, applies host-level blacklisting on failure, and
//! reports Ready / NotReady / Done upward.
//!
//! The driver never blocks. Time reaches it as a millisecond clock
//! passed into each operation; completions of its outstanding work reach
//! it as [`ConnEvent`]s queued with [`Lazy::deliver_event`]; address
//! snapshots reach it as [`AddrEvent`]s queued with
//! [`Lazy::deliver_address`] and [`Lazy::end_address_stream`].

use vstd::prelude::*;

use crate::aligner::{Aligner, count_fn};
use crate::events::{AddrEvent, ConnEvent};
use crate::failures::Blacklist;
use crate::registry::{ConnPhase, ConnState, Connections};
use crate::report::{bump, spec_bump, CloseOutcome, Delivery, ErrorTrace, Metrics,
                    PollOutcome, SendOutcome, ShutdownReason};
use crate::seqtools::{seq_count, lemma_sum_bounded};
use crate::snapshot::AddressSnapshot;
use crate::LazyUniform;

verus! {

/// Whether the address stream has announced its end somewhere in `s`.
pub open spec fn stream_ended(s: Seq<AddrEvent>) -> bool {
    exists|i: int| 0 <= i < s.len() && (#[trigger] s[i]) is StreamEnd
}

/// The snapshot a drain of `s` would be left with: the latest one.
pub open spec fn last_snap(s: Seq<AddrEvent>) -> Option<AddressSnapshot>
    decreases s.len(),
{
    if s.len() == 0 {
        None
    } else {
        match s.last() {
            AddrEvent::Snapshot(x) => Some(x),
            AddrEvent::StreamEnd => last_snap(s.drop_last()),
        }
    }
}

/// Whether a handle counts as a live connection.
pub open spec fn p_live<I>() -> spec_fn(ConnState<I>) -> bool {
    |c: ConnState<I>| c.phase is Live
}

/// Whether a handle counts as outstanding work: a pending connect or a
/// live connection.
pub open spec fn p_out<I>() -> spec_fn(ConnState<I>) -> bool {
    |c: ConnState<I>| !(c.phase is Gone)
}

/// Whether a handle counts as a pending connect attempt.
pub open spec fn p_pend<I>() -> spec_fn(ConnState<I>) -> bool {
    |c: ConnState<I>| c.phase is Pending
}

/// What one pass over the ready queue achieved.
enum DispatchOutcome<I> {
    /// The item was taken by a connection.
    Accepted,
    /// Every ready connection was tried; the item comes back.
    NoReady(I),
}

/// What one pass over the connect plan achieved.
enum ConnectOutcome {
    /// A connection became ready; dispatch can resume.
    Resume,
    /// Nothing can proceed until a timer or completion fires.
    Stuck,
}


/// A one-slot update that keeps the slot's in-flight item, and under
/// draining leaves no open handle behind, preserves the per-slot facts
/// the drain loop tracks: every in-flight item where it was, and the
/// draining state itself.
proof fn lemma_slot_update_frame<I>(pre: Lazy<I>, post: Lazy<I>, id: int)
    requires
        0 <= id < pre.n_slots(),
        post.connections.slots@ == pre.connections.slots@
            .update(id, post.connections.slots@[id]),
        post.slot(id).pending_item == pre.slot(id).pending_item,
        post.closing == pre.closing,
        pre.draining() ==> (post.slot(id).phase is Gone || post.slot(id).closed),
    ensures
        forall|sid: int| 0 <= sid < post.n_slots()
            ==> (#[trigger] post.slot(sid)).pending_item == pre.slot(sid).pending_item,
        pre.draining() ==> post.draining(),
{
    assert forall|sid: int| 0 <= sid < post.n_slots()
        implies (#[trigger] post.slot(sid)).pending_item
            == pre.slot(sid).pending_item by {
        if sid != id {
            assert(post.slot(sid) == pre.slot(sid));
        }
    }
    if pre.draining() {
        assert forall|sid: int|
            0 <= sid < post.n_slots() && !((#[trigger] post.slot(sid)).phase is Gone)
            implies post.slot(sid).closed by {
            if sid != id {
                assert(post.slot(sid) == pre.slot(sid));
            }
        }
    }
}

/// What no single event can change: everything but the completion inbox
/// compared field by field.
pub open spec fn same_core<I>(pre: Lazy<I>, post: Lazy<I>) -> bool {
    &&& post.conn_limit == pre.conn_limit
    &&& post.reconnect_min_ms == pre.reconnect_min_ms
    &&& post.reconnect_max_ms == pre.reconnect_max_ms
    &&& post.closing == pre.closing
    &&& post.cur_address@ == pre.cur_address@
    &&& post.addr_inbox@ == pre.addr_inbox@
    &&& post.delivered@ == pre.delivered@
    &&& post.metrics == pre.metrics
    &&& post.errors.shutdown == pre.errors.shutdown
    &&& post.errors.connection_errors@ == pre.errors.connection_errors@
    &&& post.errors.sink_errors@ == pre.errors.sink_errors@
    &&& post.blist.entries@ == pre.blist.entries@
    &&& post.aligner.entries@ == pre.aligner.entries@
    &&& post.connections.slots@ == pre.connections.slots@
    &&& post.connections.queue@ == pre.connections.queue@
}

/// The exact effect of one resolved connect attempt: a stale id is
/// ignored; a closed handle aborts; success goes live and joins the
/// queue; failure counts the error, blacklists the address for a
/// jittered delay within the reconnect window, and releases the plan.
pub open spec fn connect_done_shape<I>(
    pre: Lazy<I>, id: usize, success: bool, now_ms: u64, post: Lazy<I>,
) -> bool {
    if !(id < pre.n_slots() && pre.slot(id as int).phase is Pending) {
        same_core(pre, post)
    } else if pre.slot(id as int).closed {
        &&& post.keeps_env(&pre)
        &&& post.connections.slots@ == pre.connections.slots@
            .update(id as int, (ConnState {
                phase: ConnPhase::Gone, closed: true, sink_ready: false,
                ..pre.slot(id as int)
            }))
        &&& post.connections.queue@ == pre.connections.queue@
        &&& post.metrics == (Metrics {
            connection_abort: spec_bump(pre.metrics.connection_abort),
            ..pre.metrics
        })
        &&& post.blist == pre.blist
        &&& post.aligner == pre.aligner
        &&& post.errors == pre.errors
    } else if success {
        &&& post.keeps_env(&pre)
        &&& post.connections.slots@ == pre.connections.slots@
            .update(id as int, (ConnState {
                phase: ConnPhase::Live, sink_ready: true,
                ..pre.slot(id as int)
            }))
        &&& post.connections.queue@ == pre.connections.queue@.push(id)
        &&& post.metrics == (Metrics {
            connection: spec_bump(pre.metrics.connection),
            ..pre.metrics
        })
        &&& post.blist == pre.blist
        &&& post.aligner == pre.aligner
        &&& post.errors == pre.errors
    } else {
        let a = pre.slot(id as int).addr;
        &&& post.keeps_env(&pre)
        &&& post.connections.slots@ == pre.connections.slots@
            .update(id as int, (ConnState {
                phase: ConnPhase::Gone, closed: true, sink_ready: false,
                ..pre.slot(id as int)
            }))
        &&& post.connections.queue@ == pre.connections.queue@
        &&& post.metrics == (Metrics {
            connection_error: spec_bump(pre.metrics.connection_error),
            blacklist_add: spec_bump(pre.metrics.blacklist_add),
            ..pre.metrics
        })
        &&& post.errors.connection_errors@ == pre.errors.connection_errors@.push(a)
        &&& post.errors.sink_errors@ == pre.errors.sink_errors@
        &&& post.errors.shutdown == pre.errors.shutdown
        &&& post.blist.spec_failing(a)
        &&& now_ms + pre.reconnect_min_ms <= post.blist.deadline_of(a)
        &&& post.blist.deadline_of(a) < now_ms + pre.reconnect_max_ms
        &&& forall|x: u64| x != a
            ==> post.blist.spec_failing(x) == pre.blist.spec_failing(x)
        &&& forall|x: u64| x != a && pre.blist.spec_failing(x)
            ==> post.blist.deadline_of(x) == pre.blist.deadline_of(x)
        &&& forall|x: u64| post.aligner.spec_knows(x) == pre.aligner.spec_knows(x)
        &&& forall|x: u64| x != a && pre.aligner.spec_knows(x)
            ==> post.aligner.count_of(x) == pre.aligner.count_of(x)
        &&& (pre.aligner.spec_knows(a) && pre.aligner.count_of(a) > 0
            ==> post.aligner.count_of(a) == pre.aligner.count_of(a) - 1)
    }
}

/// The exact effect of a sink-became-writable notice: the flag is set
/// and an idle open handle rejoins the ready queue.
pub open spec fn sink_ready_shape<I>(pre: Lazy<I>, id: usize, post: Lazy<I>) -> bool {
    if !(id < pre.n_slots() && pre.slot(id as int).phase is Live
        && !pre.slot(id as int).closed) {
        same_core(pre, post)
    } else {
        &&& post.keeps_env(&pre)
        &&& post.connections.slots@ == pre.connections.slots@
            .update(id as int, (ConnState { sink_ready: true, ..pre.slot(id as int) }))
        &&& (!pre.connections.in_queue(id as int)
                && pre.slot(id as int).pending_item is None
            ==> post.connections.queue@ == pre.connections.queue@.push(id))
        &&& (pre.connections.in_queue(id as int)
                || !(pre.slot(id as int).pending_item is None)
            ==> post.connections.queue@ == pre.connections.queue@)
        &&& post.metrics == pre.metrics
        &&& post.blist == pre.blist
        &&& post.aligner == pre.aligner
        &&& post.errors == pre.errors
    }
}

/// The exact effect of a sink-stopped-taking notice: only the flag
/// changes.
pub open spec fn sink_unready_shape<I>(pre: Lazy<I>, id: usize, post: Lazy<I>) -> bool {
    if !(id < pre.n_slots() && pre.slot(id as int).phase is Live) {
        same_core(pre, post)
    } else {
        &&& post.keeps_env(&pre)
        &&& post.connections.slots@ == pre.connections.slots@
            .update(id as int, (ConnState { sink_ready: false, ..pre.slot(id as int) }))
        &&& post.connections.queue@ == pre.connections.queue@
        &&& post.metrics == pre.metrics
        &&& post.blist == pre.blist
        &&& post.aligner == pre.aligner
        &&& post.errors == pre.errors
    }
}

/// The exact effect of a sink failure: the disconnect is counted and
/// logged, the host released in the plan, the handle torn down and out
/// of the queue. The address is not blacklisted on disconnect.
pub open spec fn sink_failed_shape<I>(pre: Lazy<I>, id: usize, post: Lazy<I>) -> bool {
    if !(id < pre.n_slots() && pre.slot(id as int).phase is Live) {
        same_core(pre, post)
    } else {
        let a = pre.slot(id as int).addr;
        &&& post.keeps_env(&pre)
        &&& post.connections.slots@ == pre.connections.slots@
            .update(id as int, (ConnState {
                phase: ConnPhase::Gone, closed: true, sink_ready: false,
                ..pre.slot(id as int)
            }))
        &&& post.metrics == (Metrics {
            disconnect: spec_bump(pre.metrics.disconnect),
            ..pre.metrics
        })
        &&& post.errors.sink_errors@ == pre.errors.sink_errors@.push(a)
        &&& post.errors.connection_errors@ == pre.errors.connection_errors@
        &&& post.errors.shutdown == pre.errors.shutdown
        &&& post.blist == pre.blist
        &&& forall|x: u64| post.aligner.spec_knows(x) == pre.aligner.spec_knows(x)
        &&& forall|x: u64| x != a && pre.aligner.spec_knows(x)
            ==> post.aligner.count_of(x) == pre.aligner.count_of(x)
        &&& (pre.aligner.spec_knows(a) && pre.aligner.count_of(a) > 0
            ==> post.aligner.count_of(a) == pre.aligner.count_of(a) - 1)
        &&& !post.connections.in_queue(id as int)
    }
}

/// The exact effect of a clean flush-and-finish: the disconnect is
/// counted and the handle torn down; the plan is not released.
pub open spec fn sink_flushed_shape<I>(pre: Lazy<I>, id: usize, post: Lazy<I>) -> bool {
    if !(id < pre.n_slots() && pre.slot(id as int).phase is Live
        && pre.slot(id as int).closed) {
        same_core(pre, post)
    } else {
        &&& post.keeps_env(&pre)
        &&& post.connections.slots@ == pre.connections.slots@
            .update(id as int, (ConnState {
                phase: ConnPhase::Gone, closed: true, sink_ready: false,
                ..pre.slot(id as int)
            }))
        &&& post.connections.queue@ == pre.connections.queue@
        &&& post.metrics == (Metrics {
            disconnect: spec_bump(pre.metrics.disconnect),
            ..pre.metrics
        })
        &&& post.blist == pre.blist
        &&& post.aligner == pre.aligner
        &&& post.errors == pre.errors
    }
}

/// The transition one drained event makes, by kind.
pub open spec fn event_step<I>(pre: Lazy<I>, ev: ConnEvent, now_ms: u64, post: Lazy<I>) -> bool {
    match ev {
        ConnEvent::ConnectDone { id, success } =>
            connect_done_shape(pre, id, success, now_ms, post),
        ConnEvent::SinkReady { id } => sink_ready_shape(pre, id, post),
        ConnEvent::SinkUnready { id } => sink_unready_shape(pre, id, post),
        ConnEvent::SinkFailed { id } => sink_failed_shape(pre, id, post),
        ConnEvent::SinkFlushed { id } => sink_flushed_shape(pre, id, post),
    }
}

/// Draining `events` in order takes the pool from `pre` to `post`: the
/// fold of `event_step`. It is a relation, not a function, because the
/// backoff deadline after a failed connect is jittered.
pub open spec fn steps_to<I>(pre: Lazy<I>, events: Seq<ConnEvent>, now_ms: u64, post: Lazy<I>) -> bool
    decreases events.len(),
{
    if events.len() == 0 {
        same_core(pre, post)
    } else {
        exists|mid: Lazy<I>|
            #[trigger] event_step(pre, events[0], now_ms, mid)
                && steps_to(mid, events.skip(1), now_ms, post)
    }
}

/// A uniform connection pool with lazy connections: the pool driver.
pub struct Lazy<I> {
    /// Maximum number of outstanding connections per host.
    pub conn_limit: u32,
    /// Lower bound of the jittered reconnect delay, milliseconds.
    pub reconnect_min_ms: u64,
    /// Upper (exclusive) bound of the jittered reconnect delay.
    pub reconnect_max_ms: u64,
    /// The pool has entered graceful shutdown.
    pub closing: bool,
    /// The address snapshot the plan currently follows.
    pub cur_address: AddressSnapshot,
    /// The handle arena and the round-robin ready queue.
    pub connections: Connections<I>,
    /// Suppression of recently failed addresses.
    pub blist: Blacklist,
    /// The per-host connection planner.
    pub aligner: Aligner,
    /// Address snapshots delivered by the resolution source, oldest
    /// first.
    pub addr_inbox: Vec<AddrEvent>,
    /// Completions delivered by the runtime, oldest first.
    pub ev_inbox: Vec<ConnEvent>,
    /// Monotonic counters.
    pub metrics: Metrics,
    /// The error trace.
    pub errors: ErrorTrace,
    /// Every item handed to a connection, in dispatch order.
    pub delivered: Vec<Delivery<I>>,
}

impl<I> Lazy<I> {
    /// The handle state at `id`.
    pub open spec fn slot(&self, id: int) -> ConnState<I> {
        self.connections.slots@[id]
    }

    /// How many handles were ever created.
    pub open spec fn n_slots(&self) -> int {
        self.connections.slots@.len() as int
    }

    /// Number of live connections.
    pub open spec fn live_count(&self) -> nat {
        seq_count(self.connections.slots@, p_live::<I>())
    }

    /// Number of pending connects plus live connections.
    pub open spec fn out_count(&self) -> nat {
        seq_count(self.connections.slots@, p_out::<I>())
    }

    /// Number of pending connect attempts.
    pub open spec fn pend_count(&self) -> nat {
        seq_count(self.connections.slots@, p_pend::<I>())
    }

    /// The driver's well-formedness: every component invariant, and the
    /// plan in step with the current snapshot.
    pub open spec fn inv(&self) -> bool {
        &&& self.connections.wf()
        &&& self.aligner.wf(self.conn_limit)
        &&& self.blist.wf()
        &&& self.cur_address.wf()
        &&& self.conn_limit >= 1
        &&& self.reconnect_min_ms < self.reconnect_max_ms
        &&& forall|a: u64| self.aligner.spec_knows(a) <==> self.cur_address@.contains(a)
        &&& forall|k: int| 0 <= k < self.addr_inbox@.len()
                ==> ((#[trigger] self.addr_inbox@[k]) matches AddrEvent::Snapshot(s)
                    ==> s.wf())
    }

    /// No handle holds an in-flight item: true between the driver's
    /// public operations.
    pub open spec fn at_rest(&self) -> bool {
        forall|id: int| 0 <= id < self.n_slots()
            ==> (#[trigger] self.slot(id).pending_item) is None
    }

    /// The pool is closing and every handle that still stands has been
    /// asked to finish.
    pub open spec fn draining(&self) -> bool {
        &&& self.closing
        &&& forall|id: int| 0 <= id < self.n_slots()
                ==> (!((#[trigger] self.slot(id).phase) is Gone) ==> self.slot(id).closed)
    }

    /// How far the plan is from saturating every host: the capacity
    /// still unfilled. Each connect attempt takes one unit.
    pub open spec fn deficit(&self) -> int {
        self.aligner.entries@.len() * self.conn_limit - self.aligner.total()
    }

    /// Termination measure of the dispatch loop.
    pub open spec fn disp_meas(&self) -> int {
        self.connections.queue@.len() as int + 2 * self.ev_inbox@.len() as int
    }

    /// Termination measure of the connect loop.
    pub open spec fn conn_meas(&self) -> int {
        self.deficit() + self.blist.entries@.len() as int + 2 * self.ev_inbox@.len() as int
    }

    /// Termination measure of the whole send path.
    pub open spec fn total_meas(&self) -> int {
        self.connections.queue@.len() as int + self.deficit()
            + self.blist.entries@.len() as int + 2 * self.ev_inbox@.len() as int
    }

    /// What no event processing ever changes.
    pub open spec fn keeps_env(&self, pre: &Lazy<I>) -> bool {
        &&& self.conn_limit == pre.conn_limit
        &&& self.reconnect_min_ms == pre.reconnect_min_ms
        &&& self.reconnect_max_ms == pre.reconnect_max_ms
        &&& self.closing == pre.closing
        &&& self.cur_address@ == pre.cur_address@
        &&& self.cur_address.wf() == pre.cur_address.wf()
        &&& self.addr_inbox@ == pre.addr_inbox@
        &&& self.delivered@ == pre.delivered@
    }

    /// What holds of the state across the handling of any one event.
    pub open spec fn handler_frame(&self, pre: &Lazy<I>) -> bool {
        &&& self.keeps_env(pre)
        &&& self.ev_inbox@ == pre.ev_inbox@
        &&& self.n_slots() == pre.n_slots()
        &&& forall|id: int| 0 <= id < self.n_slots()
                ==> (#[trigger] self.slot(id)).pending_item == pre.slot(id).pending_item
        &&& self.connections.queue@.len() <= pre.connections.queue@.len() + 1
        &&& self.deficit() + self.blist.entries@.len()
            <= pre.deficit() + pre.blist.entries@.len() + 2
        &&& self.connections.queue@.len() + self.deficit() + self.blist.entries@.len()
            <= pre.connections.queue@.len() + pre.deficit() + pre.blist.entries@.len() + 2
        &&& (pre.draining() ==> self.draining() && self.live_count() <= pre.live_count()
                && self.out_count() <= pre.out_count())
    }

    /// The plan never overshoots its capacity.
    pub proof fn lemma_deficit_nonneg(&self)
        requires
            self.aligner.wf(self.conn_limit),
        ensures
            self.deficit() >= 0,
    {
        let s = self.aligner.entries@;
        assert forall|i: int| 0 <= i < s.len()
            implies count_fn()(#[trigger] s[i]) <= self.conn_limit as nat by {
            assert(s[i].count <= self.conn_limit);
        }
        lemma_sum_bounded(s, count_fn(), self.conn_limit as nat);
    }

    /// Queue a completion for the driver to drain at its next operation.
    pub fn deliver_event(&mut self, ev: ConnEvent)
        requires
            old(self).inv(),
        ensures
            final(self).inv(),
            final(self).ev_inbox@ == old(self).ev_inbox@.push(ev),
            *final(self) == (Lazy { ev_inbox: final(self).ev_inbox, ..*old(self) }),
    {
        self.ev_inbox.push(ev);
    }

    /// Queue a fresh address snapshot.
    pub fn deliver_address(&mut self, snap: AddressSnapshot)
        requires
            old(self).inv(),
            snap.wf(),
        ensures
            final(self).inv(),
            final(self).addr_inbox@ == old(self).addr_inbox@.push(AddrEvent::Snapshot(snap)),
            *final(self) == (Lazy { addr_inbox: final(self).addr_inbox, ..*old(self) }),
    {
        self.addr_inbox.push(AddrEvent::Snapshot(snap));
        proof {
            assert forall|k: int| 0 <= k < self.addr_inbox@.len()
                implies ((#[trigger] self.addr_inbox@[k]) matches AddrEvent::Snapshot(s)
                    ==> s.wf()) by {
                if k < self.addr_inbox@.len() - 1 {
                    assert(self.addr_inbox@[k] == old(self).addr_inbox@[k]);
                }
            }
        }
    }

    /// Announce the end of the address stream.
    pub fn end_address_stream(&mut self)
        requires
            old(self).inv(),
        ensures
            final(self).inv(),
            final(self).addr_inbox@ == old(self).addr_inbox@.push(AddrEvent::StreamEnd),
            *final(self) == (Lazy { addr_inbox: final(self).addr_inbox, ..*old(self) }),
    {
        self.addr_inbox.push(AddrEvent::StreamEnd);
        proof {
            assert forall|k: int| 0 <= k < self.addr_inbox@.len()
                implies ((#[trigger] self.addr_inbox@[k]) matches AddrEvent::Snapshot(s)
                    ==> s.wf()) by {
                if k < self.addr_inbox@.len() - 1 {
                    assert(self.addr_inbox@[k] == old(self).addr_inbox@[k]);
                }
            }
        }
    }

    /// Count the outstanding activities: pending connects plus live
    /// connections.
    pub fn count_outstanding(&self) -> (r: usize)
        ensures
            r as nat == self.out_count(),
    {
        let mut n: usize = 0;
        let mut i: usize = 0;
        while i < self.connections.slots.len()
            invariant
                i <= self.connections.slots@.len(),
                n <= i,
                n as nat == seq_count(
                    self.connections.slots@.take(i as int), p_out::<I>()),
            decreases self.connections.slots@.len() - i,
        {
            proof {
                let s = self.connections.slots@;
                assert(s.take(i as int + 1).drop_last() =~= s.take(i as int));
                assert(s.take(i as int + 1).last() == s[i as int]);
            }
            match self.connections.slots[i].phase {
                ConnPhase::Gone => {}
                _ => {
                    n = n + 1;
                }
            }
            i = i + 1;
        }
        proof {
            assert(self.connections.slots@.take(self.connections.slots@.len() as int)
                =~= self.connections.slots@);
        }
        n
    }

    /// A connect attempt resolved. A handle closed in the meantime counts
    /// as aborted; a successful one goes live and joins the ready queue;
    /// a failed one blacklists its address for a jittered delay and
    /// releases its slot in the plan.
    fn on_connect_done(&mut self, id: usize, success: bool, now_ms: u64)
        requires
            old(self).inv(),
            now_ms + old(self).reconnect_max_ms <= u64::MAX,
        ensures
            final(self).inv(),
            final(self).handler_frame(old(self)),
            !(id < old(self).n_slots() && old(self).slot(id as int).phase is Pending)
                ==> *final(self) == *old(self),
            connect_done_shape(*old(self), id, success, now_ms, *final(self)),
            (id < old(self).n_slots() && old(self).slot(id as int).phase is Pending
                && !old(self).slot(id as int).closed && success)
                ==> final(self).live_count() == old(self).live_count() + 1,
            !(id < old(self).n_slots() && old(self).slot(id as int).phase is Pending
                && !old(self).slot(id as int).closed && success)
                ==> final(self).live_count() == old(self).live_count(),
    {
        let ghost pre = *self;
        if id >= self.connections.slots.len() {
            return;
        }
        let is_pending = match self.connections.slots[id].phase {
            ConnPhase::Pending => true,
            _ => false,
        };
        if !is_pending {
            return;
        }
        proof {
            assert(!pre.connections.in_queue(id as int)) by {
                if pre.connections.in_queue(id as int) {
                    let p = choose|p: int|
                        0 <= p < pre.connections.queue@.len()
                            && #[trigger] pre.connections.queue@[p] as int == id;
                    assert(pre.connections.slots@[id as int].phase is Live);
                }
            }
        }
        if self.connections.slots[id].closed {
            self.metrics.connection_abort = bump(self.metrics.connection_abort);
            self.connections.mark_gone(id);
            proof {
                crate::seqtools::lemma_count_update(
                    pre.connections.slots@, p_live::<I>(), id as int,
                    self.connections.slots@[id as int]);
                crate::seqtools::lemma_count_update(
                    pre.connections.slots@, p_out::<I>(), id as int,
                    self.connections.slots@[id as int]);
                lemma_slot_update_frame(pre, *self, id as int);
            }
            return;
        }
        if success {
            self.connections.mark_live(id);
            self.metrics.connection = bump(self.metrics.connection);
            self.connections.add(id);
            proof {
                crate::seqtools::lemma_count_update(
                    pre.connections.slots@, p_live::<I>(), id as int,
                    self.connections.slots@[id as int]);
                crate::seqtools::lemma_count_update(
                    pre.connections.slots@, p_out::<I>(), id as int,
                    self.connections.slots@[id as int]);
                assert(!pre.draining());
                lemma_slot_update_frame(pre, *self, id as int);
            }
            return;
        }
        let addr = self.connections.slots[id].addr;
        self.metrics.connection_error = bump(self.metrics.connection_error);
        self.errors.connection_errors.push(addr);
        let jit = jitter_in(self.reconnect_min_ms, self.reconnect_max_ms);
        let deadline = now_ms + jit;
        self.metrics.blacklist_add = bump(self.metrics.blacklist_add);
        self.blist.blacklist(addr, deadline);
        self.aligner.put(addr);
        self.connections.mark_gone(id);
        proof {
            crate::seqtools::lemma_count_update(
                pre.connections.slots@, p_live::<I>(), id as int,
                self.connections.slots@[id as int]);
            crate::seqtools::lemma_count_update(
                pre.connections.slots@, p_out::<I>(), id as int,
                self.connections.slots@[id as int]);
            lemma_slot_update_frame(pre, *self, id as int);
        }
    }

    /// A connection's sink can take an item again: remember so, and
    /// re-enqueue the handle unless it already waits in the queue, was
    /// asked to close, or still holds an in-flight item.
    fn on_sink_ready(&mut self, id: usize)
        requires
            old(self).inv(),
        ensures
            final(self).inv(),
            final(self).handler_frame(old(self)),
            !(id < old(self).n_slots() && old(self).slot(id as int).phase is Live
                && !old(self).slot(id as int).closed)
                ==> *final(self) == *old(self),
            sink_ready_shape(*old(self), id, *final(self)),
            final(self).live_count() == old(self).live_count(),
    {
        let ghost pre = *self;
        if id >= self.connections.slots.len() {
            return;
        }
        let is_live = match self.connections.slots[id].phase {
            ConnPhase::Live => true,
            _ => false,
        };
        if !is_live || self.connections.slots[id].closed {
            return;
        }
        self.connections.set_sink_ready(id, true);
        proof {
            crate::seqtools::lemma_count_update(
                pre.connections.slots@, p_live::<I>(), id as int,
                self.connections.slots@[id as int]);
            crate::seqtools::lemma_count_update(
                pre.connections.slots@, p_out::<I>(), id as int,
                self.connections.slots@[id as int]);
            assert(self.connections.in_queue(id as int)
                == pre.connections.in_queue(id as int));
            assert(!pre.draining());
            lemma_slot_update_frame(pre, *self, id as int);
        }
        let queued = crate::seqtools::vec_contains_usize(&self.connections.queue, id);
        let has_pending = self.connections.slots[id].pending_item.is_some();
        if !queued && !has_pending {
            self.connections.add(id);
        }
    }

    /// A connection's sink stopped taking items; the handle keeps its
    /// place, and a later pop of it advances the round-robin instead of
    /// blocking on it.
    fn on_sink_unready(&mut self, id: usize)
        requires
            old(self).inv(),
        ensures
            final(self).inv(),
            final(self).handler_frame(old(self)),
            !(id < old(self).n_slots() && old(self).slot(id as int).phase is Live)
                ==> *final(self) == *old(self),
            sink_unready_shape(*old(self), id, *final(self)),
            final(self).live_count() == old(self).live_count(),
    {
        let ghost pre = *self;
        if id >= self.connections.slots.len() {
            return;
        }
        let is_live = match self.connections.slots[id].phase {
            ConnPhase::Live => true,
            _ => false,
        };
        if !is_live {
            return;
        }
        self.connections.set_sink_ready(id, false);
        proof {
            crate::seqtools::lemma_count_update(
                pre.connections.slots@, p_live::<I>(), id as int,
                self.connections.slots@[id as int]);
            crate::seqtools::lemma_count_update(
                pre.connections.slots@, p_out::<I>(), id as int,
                self.connections.slots@[id as int]);
            if pre.draining() {
                assert(!(pre.slot(id as int).phase is Gone)
                    ==> pre.slot(id as int).closed);
            }
            lemma_slot_update_frame(pre, *self, id as int);
        }
    }

    /// A live connection's sink rejected a push or a flush: record the
    /// error, release the address in the plan, and tear the handle down.
    /// The address is not blacklisted on disconnect.
    fn on_sink_failed(&mut self, id: usize)
        requires
            old(self).inv(),
        ensures
            final(self).inv(),
            final(self).handler_frame(old(self)),
            !(id < old(self).n_slots() && old(self).slot(id as int).phase is Live)
                ==> *final(self) == *old(self),
            sink_failed_shape(*old(self), id, *final(self)),
            (id < old(self).n_slots() && old(self).slot(id as int).phase is Live)
                ==> final(self).live_count() == old(self).live_count() - 1,
            !(id < old(self).n_slots() && old(self).slot(id as int).phase is Live)
                ==> final(self).live_count() == old(self).live_count(),
    {
        let ghost pre = *self;
        if id >= self.connections.slots.len() {
            return;
        }
        let is_live = match self.connections.slots[id].phase {
            ConnPhase::Live => true,
            _ => false,
        };
        if !is_live {
            return;
        }
        let addr = self.connections.slots[id].addr;
        self.metrics.disconnect = bump(self.metrics.disconnect);
        self.errors.sink_errors.push(addr);
        self.aligner.put(addr);
        self.connections.mark_gone(id);
        proof {
            crate::seqtools::lemma_count_update(
                pre.connections.slots@, p_live::<I>(), id as int,
                self.connections.slots@[id as int]);
            crate::seqtools::lemma_count_update(
                pre.connections.slots@, p_out::<I>(), id as int,
                self.connections.slots@[id as int]);
            lemma_slot_update_frame(pre, *self, id as int);
        }
    }

    /// A connection asked to close has flushed and finished cleanly: tear
    /// the handle down. The plan is not released: the address was retired
    /// or the pool is closing.
    fn on_sink_flushed(&mut self, id: usize)
        requires
            old(self).inv(),
        ensures
            final(self).inv(),
            final(self).handler_frame(old(self)),
            !(id < old(self).n_slots() && old(self).slot(id as int).phase is Live
                && old(self).slot(id as int).closed)
                ==> *final(self) == *old(self),
            sink_flushed_shape(*old(self), id, *final(self)),
            (id < old(self).n_slots() && old(self).slot(id as int).phase is Live
                && old(self).slot(id as int).closed)
                ==> final(self).live_count() == old(self).live_count() - 1,
            !(id < old(self).n_slots() && old(self).slot(id as int).phase is Live
                && old(self).slot(id as int).closed)
                ==> final(self).live_count() == old(self).live_count(),
    {
        let ghost pre = *self;
        if id >= self.connections.slots.len() {
            return;
        }
        let is_live = match self.connections.slots[id].phase {
            ConnPhase::Live => true,
            _ => false,
        };
        if !is_live || !self.connections.slots[id].closed {
            return;
        }
        proof {
            assert(!pre.connections.in_queue(id as int)) by {
                if pre.connections.in_queue(id as int) {
                    let p = choose|p: int|
                        0 <= p < pre.connections.queue@.len()
                            && #[trigger] pre.connections.queue@[p] as int == id;
                    assert(!pre.connections.slots@[id as int].closed);
                }
            }
        }
        self.metrics.disconnect = bump(self.metrics.disconnect);
        self.connections.mark_gone(id);
        proof {
            crate::seqtools::lemma_count_update(
                pre.connections.slots@, p_live::<I>(), id as int,
                self.connections.slots@[id as int]);
            crate::seqtools::lemma_count_update(
                pre.connections.slots@, p_out::<I>(), id as int,
                self.connections.slots@[id as int]);
            lemma_slot_update_frame(pre, *self, id as int);
        }
    }

    /// Drain the completion inbox to quiescence, oldest event first.
    fn poll_futures(&mut self, now_ms: u64)
        requires
            old(self).inv(),
            now_ms + old(self).reconnect_max_ms <= u64::MAX,
        ensures
            final(self).inv(),
            final(self).keeps_env(old(self)),
            final(self).ev_inbox@.len() == 0,
            final(self).n_slots() == old(self).n_slots(),
            forall|id: int| 0 <= id < final(self).n_slots()
                ==> (#[trigger] final(self).slot(id)).pending_item
                    == old(self).slot(id).pending_item,
            final(self).connections.queue@.len() + final(self).ev_inbox@.len()
                <= old(self).connections.queue@.len() + old(self).ev_inbox@.len(),
            final(self).disp_meas() <= old(self).disp_meas(),
            final(self).conn_meas() <= old(self).conn_meas(),
            final(self).total_meas() <= old(self).total_meas(),
            old(self).draining()
                ==> final(self).draining()
                    && final(self).live_count() <= old(self).live_count()
                    && final(self).out_count() <= old(self).out_count(),
            steps_to(*old(self), old(self).ev_inbox@, now_ms, *final(self)),
            old(self).ev_inbox@.len() == 0 ==> *final(self) == *old(self),
            final(self).metrics.connection_attempt == old(self).metrics.connection_attempt,
    {
        let ghost pre = *self;
        while self.ev_inbox.len() > 0
            invariant
                self.inv(),
                pre == *old(self),
                now_ms + self.reconnect_max_ms <= u64::MAX,
                self.keeps_env(&pre),
                self.n_slots() == pre.n_slots(),
                forall|id: int| 0 <= id < self.n_slots()
                    ==> (#[trigger] self.slot(id)).pending_item
                        == pre.slot(id).pending_item,
                self.connections.queue@.len() + self.ev_inbox@.len()
                    <= pre.connections.queue@.len() + pre.ev_inbox@.len(),
                self.disp_meas() <= pre.disp_meas(),
                self.conn_meas() <= pre.conn_meas(),
                self.total_meas() <= pre.total_meas(),
                pre.draining()
                    ==> self.draining() && self.live_count() <= pre.live_count()
                        && self.out_count() <= pre.out_count(),
                self.metrics.connection_attempt == pre.metrics.connection_attempt,
                forall|fin: Lazy<I>|
                    steps_to(*self, self.ev_inbox@, now_ms, fin)
                        ==> steps_to(pre, pre.ev_inbox@, now_ms, fin),
                pre.ev_inbox@.len() == 0 ==> *self == pre,
            decreases self.ev_inbox@.len(),
        {
            let ghost head = *self;
            let ev = self.ev_inbox.remove(0);
            let ghost mid = *self;
            let ghost gev = ev;
            match ev {
                ConnEvent::ConnectDone { id, success } => {
                    self.on_connect_done(id, success, now_ms);
                }
                ConnEvent::SinkReady { id } => {
                    self.on_sink_ready(id);
                }
                ConnEvent::SinkUnready { id } => {
                    self.on_sink_unready(id);
                }
                ConnEvent::SinkFailed { id } => {
                    self.on_sink_failed(id);
                }
                ConnEvent::SinkFlushed { id } => {
                    self.on_sink_flushed(id);
                }
            }
            proof {
                assert(mid.connections == head.connections);
                assert(mid.closing == head.closing);
                assert forall|sid: int| 0 <= sid < self.n_slots()
                    implies (#[trigger] self.slot(sid)).pending_item
                        == pre.slot(sid).pending_item by {
                    assert(self.slot(sid).pending_item == mid.slot(sid).pending_item);
                    assert(head.slot(sid).pending_item == pre.slot(sid).pending_item);
                }
                if pre.draining() {
                    assert(head.draining());
                    assert forall|sid: int|
                        0 <= sid < mid.n_slots()
                            && !((#[trigger] mid.slot(sid)).phase is Gone)
                        implies mid.slot(sid).closed by {
                        assert(mid.slot(sid) == head.slot(sid));
                    }
                    assert(mid.draining());
                    assert(self.draining());
                    assert(self.live_count() <= mid.live_count());
                    assert(mid.live_count() == head.live_count());
                    assert(self.out_count() <= mid.out_count());
                    assert(mid.out_count() == head.out_count());
                }
                let cur = *self;
                assert(event_step(mid, gev, now_ms, cur));
                assert(mid.connections == head.connections);
                assert(mid.closing == head.closing);
                assert(mid.cur_address == head.cur_address);
                assert(mid.addr_inbox == head.addr_inbox);
                assert(mid.delivered == head.delivered);
                assert(mid.metrics == head.metrics);
                assert(mid.errors == head.errors);
                assert(mid.blist == head.blist);
                assert(mid.aligner == head.aligner);
                assert(mid.conn_limit == head.conn_limit);
                assert(mid.reconnect_min_ms == head.reconnect_min_ms);
                assert(mid.reconnect_max_ms == head.reconnect_max_ms);
                assert(event_step(head, gev, now_ms, cur)) by {
                    match gev {
                        ConnEvent::ConnectDone { id, success } => {
                            assert(connect_done_shape(mid, id, success, now_ms, cur));
                            assert(head.slot(id as int) == mid.slot(id as int));
                        }
                        ConnEvent::SinkReady { id } => {
                            assert(sink_ready_shape(mid, id, cur));
                            assert(head.slot(id as int) == mid.slot(id as int));
                        }
                        ConnEvent::SinkUnready { id } => {
                            assert(sink_unready_shape(mid, id, cur));
                            assert(head.slot(id as int) == mid.slot(id as int));
                        }
                        ConnEvent::SinkFailed { id } => {
                            assert(sink_failed_shape(mid, id, cur));
                            assert(head.slot(id as int) == mid.slot(id as int));
                        }
                        ConnEvent::SinkFlushed { id } => {
                            assert(sink_flushed_shape(mid, id, cur));
                            assert(head.slot(id as int) == mid.slot(id as int));
                        }
                    }
                }
                assert(cur.ev_inbox@ == mid.ev_inbox@);
                assert(mid.ev_inbox@ =~= head.ev_inbox@.skip(1));
                assert(head.ev_inbox@[0] == gev);
                assert forall|fin: Lazy<I>|
                    steps_to(cur, cur.ev_inbox@, now_ms, fin)
                    implies steps_to(pre, pre.ev_inbox@, now_ms, fin) by {
                    assert(steps_to(cur, head.ev_inbox@.skip(1), now_ms, fin));
                    assert(event_step(head, head.ev_inbox@[0], now_ms, cur));
                    assert(steps_to(head, head.ev_inbox@, now_ms, fin));
                }
            }
        }
        proof {
            assert(same_core(*self, *self));
            assert(steps_to(*self, self.ev_inbox@, now_ms, *self));
        }
    }

    /// Begin graceful shutdown once: set the closing flag and ask every
    /// handle to finish. Idempotent.
    pub fn start_closing(&mut self)
        requires
            old(self).inv(),
        ensures
            final(self).inv(),
            final(self).closing,
            old(self).closing ==> *final(self) == *old(self),
            !old(self).closing ==> {
                &&& final(self).draining()
                &&& final(self).connections.queue@.len() == 0
                &&& final(self).n_slots() == old(self).n_slots()
                &&& forall|id: int| 0 <= id < final(self).n_slots()
                        ==> #[trigger] final(self).slot(id)
                            == (ConnState { closed: true, ..old(self).slot(id) })
                &&& final(self).metrics == old(self).metrics
                &&& final(self).blist == old(self).blist
                &&& final(self).aligner == old(self).aligner
                &&& final(self).errors == old(self).errors
                &&& final(self).cur_address@ == old(self).cur_address@
                &&& final(self).addr_inbox@ == old(self).addr_inbox@
                &&& final(self).ev_inbox@ == old(self).ev_inbox@
                &&& final(self).delivered@ == old(self).delivered@
            },
            final(self).live_count() == old(self).live_count(),
            final(self).out_count() == old(self).out_count(),
            final(self).n_slots() == old(self).n_slots(),
            forall|id: int| 0 <= id < final(self).n_slots()
                ==> (#[trigger] final(self).slot(id)).pending_item
                    == old(self).slot(id).pending_item,
            final(self).conn_limit == old(self).conn_limit,
            final(self).reconnect_min_ms == old(self).reconnect_min_ms,
            final(self).reconnect_max_ms == old(self).reconnect_max_ms,
    {
        if self.closing {
            return;
        }
        self.closing = true;
        let ghost pre = *self;
        let mut id: usize = 0;
        while id < self.connections.slots.len()
            invariant
                id <= self.connections.slots@.len(),
                pre.connections.wf(),
                self.connections.wf(),
                self.n_slots() == pre.n_slots(),
                self.connections.queue@.len() <= pre.connections.queue@.len(),
                forall|j: int| 0 <= j < id
                    ==> #[trigger] self.slot(j)
                        == (ConnState { closed: true, ..pre.slot(j) }),
                forall|j: int| id <= j < self.n_slots()
                    ==> #[trigger] self.slot(j) == pre.slot(j),
                self.conn_limit == pre.conn_limit,
                self.reconnect_min_ms == pre.reconnect_min_ms,
                self.reconnect_max_ms == pre.reconnect_max_ms,
                self.closing == pre.closing,
                self.cur_address == pre.cur_address,
                self.blist == pre.blist,
                self.aligner == pre.aligner,
                self.addr_inbox == pre.addr_inbox,
                self.ev_inbox == pre.ev_inbox,
                self.metrics == pre.metrics,
                self.errors == pre.errors,
                self.delivered == pre.delivered,
                self.inv(),
            decreases self.connections.slots@.len() - id,
        {
            let ghost before = *self;
            self.connections.set_closed(id);
            proof {
                let idi = id as int;
                assert(self.slot(idi) == (ConnState { closed: true, ..before.slot(idi) }));
                assert(before.slot(idi) == pre.slot(idi));
                assert forall|j: int| 0 <= j <= idi
                    implies #[trigger] self.slot(j)
                        == (ConnState { closed: true, ..pre.slot(j) }) by {
                    if j < idi {
                        assert(self.slot(j) == before.slot(j));
                        assert(before.slot(j) == (ConnState { closed: true, ..pre.slot(j) }));
                    }
                }
                assert forall|j: int| idi + 1 <= j < self.n_slots()
                    implies #[trigger] self.slot(j) == pre.slot(j) by {
                    assert(self.slot(j) == before.slot(j));
                }
            }
            id = id + 1;
        }
        proof {
            assert(self.connections.queue@.len() == 0) by {
                if self.connections.queue@.len() > 0 {
                    assert((self.connections.slots@[
                        self.connections.queue@[0] as int].phase) is Live);
                    assert(!self.connections.slots@[
                        self.connections.queue@[0] as int].closed);
                    assert(self.slot(self.connections.queue@[0] as int).closed);
                }
            }
            assert forall|i: int| 0 <= i < self.connections.slots@.len()
                implies p_live::<I>()(#[trigger] self.connections.slots@[i])
                        == p_live::<I>()(#[trigger] pre.connections.slots@[i])
                    && p_out::<I>()(self.connections.slots@[i])
                        == p_out::<I>()(pre.connections.slots@[i]) by {
                assert(self.slot(i) == (ConnState { closed: true, ..pre.slot(i) }));
            }
            crate::seqtools::lemma_count_pointwise(
                self.connections.slots@, pre.connections.slots@, p_live::<I>());
            crate::seqtools::lemma_count_pointwise(
                self.connections.slots@, pre.connections.slots@, p_out::<I>());
        }
    }

    /// Pull from the address inbox until it is drained or the stream has
    /// ended. Keeps only the latest snapshot; end-of-stream logs the
    /// shutdown reason and begins graceful shutdown.
    fn new_addr(&mut self) -> (r: Option<AddressSnapshot>)
        requires
            old(self).inv(),
        ensures
            final(self).inv(),
            final(self).metrics == old(self).metrics,
            final(self).blist == old(self).blist,
            final(self).aligner == old(self).aligner,
            final(self).delivered@ == old(self).delivered@,
            final(self).ev_inbox@ == old(self).ev_inbox@,
            final(self).cur_address@ == old(self).cur_address@,
            final(self).conn_limit == old(self).conn_limit,
            final(self).reconnect_min_ms == old(self).reconnect_min_ms,
            final(self).reconnect_max_ms == old(self).reconnect_max_ms,
            final(self).errors.connection_errors@ == old(self).errors.connection_errors@,
            final(self).errors.sink_errors@ == old(self).errors.sink_errors@,
            final(self).n_slots() == old(self).n_slots(),
            forall|id: int| 0 <= id < final(self).n_slots()
                ==> (#[trigger] final(self).slot(id)).pending_item
                    == old(self).slot(id).pending_item,
            final(self).live_count() == old(self).live_count(),
            final(self).out_count() == old(self).out_count(),
            final(self).connections.queue@.len() <= old(self).connections.queue@.len(),
            old(self).closing ==> final(self).closing,
            old(self).draining() ==> final(self).draining(),
            old(self).addr_inbox@.len() == 0 ==> *final(self) == *old(self) && r is None,
            r matches Some(snap) ==> snap.wf(),
            !stream_ended(old(self).addr_inbox@) ==> {
                &&& r == last_snap(old(self).addr_inbox@)
                &&& final(self).addr_inbox@.len() == 0
                &&& final(self).closing == old(self).closing
                &&& final(self).connections == old(self).connections
                &&& final(self).errors.shutdown == old(self).errors.shutdown
            },
            stream_ended(old(self).addr_inbox@) ==> {
                &&& r is None
                &&& final(self).closing
                &&& final(self).errors.shutdown == Some(ShutdownReason::AddressStreamClosed)
                &&& (!old(self).closing ==> final(self).draining()
                        && final(self).connections.queue@.len() == 0)
            },
    {
        let ghost pre = *self;
        let ghost total: int = pre.addr_inbox@.len() as int;
        let mut result: Option<AddressSnapshot> = None;
        let ghost mut k: int = 0;
        proof {
            assert(pre.addr_inbox@.skip(0) =~= pre.addr_inbox@);
        }
        while self.addr_inbox.len() > 0
            invariant
                self.inv(),
                pre == *old(self),
                pre.inv(),
                0 <= k <= total,
                total == pre.addr_inbox@.len(),
                self.addr_inbox@ == pre.addr_inbox@.skip(k),
                forall|j: int| 0 <= j < k ==> !((#[trigger] pre.addr_inbox@[j]) is StreamEnd),
                result == last_snap(pre.addr_inbox@.take(k)),
                result matches Some(snap) ==> snap.wf(),
                pre.addr_inbox@.len() == 0 ==> *self == pre && result is None,
                self.conn_limit == pre.conn_limit,
                self.reconnect_min_ms == pre.reconnect_min_ms,
                self.reconnect_max_ms == pre.reconnect_max_ms,
                self.closing == pre.closing,
                self.cur_address == pre.cur_address,
                self.connections == pre.connections,
                self.blist == pre.blist,
                self.aligner == pre.aligner,
                self.ev_inbox == pre.ev_inbox,
                self.metrics == pre.metrics,
                self.errors == pre.errors,
                self.delivered == pre.delivered,
            decreases self.addr_inbox@.len(),
        {
            proof {
                assert(self.addr_inbox@[0] == pre.addr_inbox@[k]);
                assert(pre.addr_inbox@.take(k + 1).drop_last() =~= pre.addr_inbox@.take(k));
                assert(pre.addr_inbox@.take(k + 1).last() == pre.addr_inbox@[k]);
            }
            let ev = self.addr_inbox.remove(0);
            proof {
                assert(self.addr_inbox@ =~= pre.addr_inbox@.skip(k + 1));
                assert forall|j: int| 0 <= j < self.addr_inbox@.len()
                    implies ((#[trigger] self.addr_inbox@[j])
                        matches AddrEvent::Snapshot(sn) ==> sn.wf()) by {
                    assert(self.addr_inbox@[j] == pre.addr_inbox@[k + 1 + j]);
                }
                assert(ev == pre.addr_inbox@[k]);
            }
            match ev {
                AddrEvent::Snapshot(snap) => {
                    proof {
                        assert(pre.addr_inbox@[k] matches AddrEvent::Snapshot(sn) && sn == snap);
                        assert(snap.wf());
                    }
                    result = Some(snap);
                    proof {
                        k = k + 1;
                    }
                }
                AddrEvent::StreamEnd => {
                    proof {
                        assert(stream_ended(pre.addr_inbox@)) by {
                            assert(pre.addr_inbox@[k] is StreamEnd);
                        }
                    }
                    self.errors.shutdown = Some(ShutdownReason::AddressStreamClosed);
                    let ghost mid2 = *self;
                    self.start_closing();
                    proof {
                        if pre.draining() {
                            assert(mid2.closing);
                            assert forall|sid: int|
                                0 <= sid < mid2.n_slots()
                                    && !((#[trigger] mid2.slot(sid)).phase is Gone)
                                implies mid2.slot(sid).closed by {
                                assert(mid2.slot(sid) == pre.slot(sid));
                            }
                            assert(mid2.draining());
                            assert forall|sid: int|
                                0 <= sid < self.n_slots()
                                    && !((#[trigger] self.slot(sid)).phase is Gone)
                                implies self.slot(sid).closed by {
                                if mid2.closing {
                                    assert(self.slot(sid) == mid2.slot(sid));
                                }
                            }
                        }
                    }
                    return None;
                }
            }
        }
        proof {
            assert(k == total);
            assert(pre.addr_inbox@.take(total) =~= pre.addr_inbox@);
            assert(!stream_ended(pre.addr_inbox@)) by {
                if stream_ended(pre.addr_inbox@) {
                    let i = choose|i: int|
                        0 <= i < pre.addr_inbox@.len()
                            && (#[trigger] pre.addr_inbox@[i]) is StreamEnd;
                    assert(!(pre.addr_inbox@[i] is StreamEnd));
                }
            }
            if pre.draining() {
                assert forall|sid: int|
                    0 <= sid < self.n_slots()
                        && !((#[trigger] self.slot(sid)).phase is Gone)
                    implies self.slot(sid).closed by {
                    assert(self.slot(sid) == pre.slot(sid));
                }
            }
        }
        result
    }

    /// Adopt a replacement snapshot: ask every connection to a retired
    /// address to close, then bring the plan in step with the new
    /// address set.
    fn apply_snapshot(&mut self, new_snap: AddressSnapshot)
        requires
            old(self).inv(),
            new_snap.wf(),
        ensures
            final(self).inv(),
            final(self).cur_address@ == new_snap@,
            final(self).closing == old(self).closing,
            final(self).metrics == old(self).metrics,
            final(self).blist == old(self).blist,
            final(self).errors == old(self).errors,
            final(self).addr_inbox@ == old(self).addr_inbox@,
            final(self).ev_inbox@ == old(self).ev_inbox@,
            final(self).delivered@ == old(self).delivered@,
            final(self).conn_limit == old(self).conn_limit,
            final(self).reconnect_min_ms == old(self).reconnect_min_ms,
            final(self).reconnect_max_ms == old(self).reconnect_max_ms,
            final(self).n_slots() == old(self).n_slots(),
            forall|id: int| 0 <= id < final(self).n_slots()
                ==> #[trigger] final(self).slot(id) == old(self).slot(id)
                    || final(self).slot(id)
                        == (ConnState { closed: true, ..old(self).slot(id) }),
            forall|id: int| 0 <= id < final(self).n_slots()
                && old(self).cur_address@.contains(old(self).slot(id).addr)
                && !new_snap@.contains(#[trigger] old(self).slot(id).addr)
                ==> final(self).slot(id).closed,
            forall|id: int| 0 <= id < final(self).n_slots()
                && !(old(self).cur_address@.contains(old(self).slot(id).addr)
                    && !new_snap@.contains(#[trigger] old(self).slot(id).addr))
                ==> final(self).slot(id) == old(self).slot(id),
            forall|a: u64| final(self).aligner.spec_knows(a) <==> new_snap@.contains(a),
            forall|a: u64|
                old(self).cur_address@.contains(a) && new_snap@.contains(a)
                    ==> final(self).aligner.count_of(a) == old(self).aligner.count_of(a),
            forall|a: u64| new_snap@.contains(a) && !old(self).cur_address@.contains(a)
                ==> final(self).aligner.count_of(a) == 0,
            final(self).live_count() == old(self).live_count(),
            final(self).out_count() == old(self).out_count(),
            final(self).connections.queue@.len() <= old(self).connections.queue@.len(),
            old(self).draining() ==> final(self).draining(),
    {
        let ghost pre = *self;
        let (retired, added) = self.cur_address.compare(&new_snap);
        let mut id: usize = 0;
        while id < self.connections.slots.len()
            invariant
                id <= self.connections.slots@.len(),
                pre == *old(self),
                pre.inv(),
                self.connections.wf(),
                self.n_slots() == pre.n_slots(),
                self.connections.queue@.len() <= pre.connections.queue@.len(),
                forall|a: u64| retired@.contains(a)
                    <==> (pre.cur_address@.contains(a) && !new_snap@.contains(a)),
                forall|j: int| 0 <= j < id
                    ==> #[trigger] self.slot(j) == pre.slot(j)
                        || self.slot(j) == (ConnState { closed: true, ..pre.slot(j) }),
                forall|j: int| 0 <= j < id && retired@.contains(pre.slot(j).addr)
                    ==> (#[trigger] self.slot(j)).closed,
                forall|j: int| 0 <= j < id && !retired@.contains(pre.slot(j).addr)
                    ==> #[trigger] self.slot(j) == pre.slot(j),
                forall|j: int| id <= j < self.n_slots()
                    ==> #[trigger] self.slot(j) == pre.slot(j),
                self.conn_limit == pre.conn_limit,
                self.reconnect_min_ms == pre.reconnect_min_ms,
                self.reconnect_max_ms == pre.reconnect_max_ms,
                self.closing == pre.closing,
                self.cur_address == pre.cur_address,
                self.blist == pre.blist,
                self.aligner == pre.aligner,
                self.addr_inbox == pre.addr_inbox,
                self.ev_inbox == pre.ev_inbox,
                self.metrics == pre.metrics,
                self.errors == pre.errors,
                self.delivered == pre.delivered,
            decreases self.connections.slots@.len() - id,
        {
            let a = self.connections.slots[id].addr;
            if crate::seqtools::vec_contains(&retired, a) {
                let ghost before = *self;
                self.connections.set_closed(id);
                proof {
                    let idi = id as int;
                    assert(self.slot(idi)
                        == (ConnState { closed: true, ..before.slot(idi) }));
                    assert(before.slot(idi) == pre.slot(idi));
                    assert forall|j: int| 0 <= j <= idi
                        implies (#[trigger] self.slot(j) == pre.slot(j)
                            || self.slot(j)
                                == (ConnState { closed: true, ..pre.slot(j) })) by {
                        if j < idi {
                            assert(self.slot(j) == before.slot(j));
                        }
                    }
                    assert forall|j: int| 0 <= j <= idi
                            && retired@.contains(pre.slot(j).addr)
                        implies (#[trigger] self.slot(j)).closed by {
                        if j < idi {
                            assert(self.slot(j) == before.slot(j));
                        }
                    }
                    assert forall|j: int| 0 <= j <= idi
                            && !retired@.contains(pre.slot(j).addr)
                        implies #[trigger] self.slot(j) == pre.slot(j) by {
                        assert(j != idi);
                        assert(self.slot(j) == before.slot(j));
                    }
                    assert forall|j: int| idi + 1 <= j < self.n_slots()
                        implies #[trigger] self.slot(j) == pre.slot(j) by {
                        assert(self.slot(j) == before.slot(j));
                    }
                }
            }
            id = id + 1;
        }
        let ghost mid = *self;
        proof {
            assert forall|x: u64| added@.contains(x)
                implies !self.aligner.spec_knows(x) by {
                assert(!pre.cur_address@.contains(x));
            }
        }
        self.aligner.update(&added, &retired);
        self.cur_address = new_snap;
        proof {
            assert(self.connections == mid.connections);
            assert forall|j: int| 0 <= j < self.n_slots()
                implies (#[trigger] self.slot(j) == pre.slot(j)
                    || self.slot(j) == (ConnState { closed: true, ..pre.slot(j) })) by {
                assert(self.slot(j) == mid.slot(j));
                assert(mid.slot(j) == pre.slot(j)
                    || mid.slot(j) == (ConnState { closed: true, ..pre.slot(j) }));
            }
            assert forall|j: int| 0 <= j < self.n_slots()
                    && pre.cur_address@.contains(pre.slot(j).addr)
                    && !new_snap@.contains(#[trigger] pre.slot(j).addr)
                implies self.slot(j).closed by {
                assert(retired@.contains(pre.slot(j).addr));
                assert(mid.slot(j).closed);
                assert(self.slot(j) == mid.slot(j));
            }
            assert forall|j: int| 0 <= j < self.n_slots()
                    && !(pre.cur_address@.contains(pre.slot(j).addr)
                        && !new_snap@.contains(#[trigger] pre.slot(j).addr))
                implies self.slot(j) == pre.slot(j) by {
                assert(!retired@.contains(pre.slot(j).addr));
                assert(mid.slot(j) == pre.slot(j));
                assert(self.slot(j) == mid.slot(j));
            }
            assert forall|a: u64| self.aligner.spec_knows(a)
                implies new_snap@.contains(a) by {
                if pre.aligner.spec_knows(a) && !retired@.contains(a) {
                    assert(pre.cur_address@.contains(a));
                }
            }
            assert forall|a: u64| new_snap@.contains(a)
                implies self.aligner.spec_knows(a) by {
                if pre.cur_address@.contains(a) {
                    assert(!retired@.contains(a));
                    assert(pre.aligner.spec_knows(a));
                } else {
                    assert(added@.contains(a));
                }
            }
            assert forall|a: u64|
                pre.cur_address@.contains(a) && new_snap@.contains(a)
                implies self.aligner.count_of(a) == pre.aligner.count_of(a) by {
                assert(!retired@.contains(a));
                assert(!added@.contains(a));
                assert(pre.aligner.spec_knows(a));
            }
            assert forall|i: int| 0 <= i < self.connections.slots@.len()
                implies p_live::<I>()(#[trigger] self.connections.slots@[i])
                        == p_live::<I>()(#[trigger] pre.connections.slots@[i])
                    && p_out::<I>()(self.connections.slots@[i])
                        == p_out::<I>()(pre.connections.slots@[i]) by {
                assert(self.slot(i) == pre.slot(i)
                    || self.slot(i) == (ConnState { closed: true, ..pre.slot(i) }));
            }
            crate::seqtools::lemma_count_pointwise(
                self.connections.slots@, pre.connections.slots@, p_live::<I>());
            crate::seqtools::lemma_count_pointwise(
                self.connections.slots@, pre.connections.slots@, p_out::<I>());
            if pre.draining() {
                assert forall|sid: int|
                    0 <= sid < self.n_slots()
                        && !((#[trigger] self.slot(sid)).phase is Gone)
                    implies self.slot(sid).closed by {
                    assert(self.slot(sid) == pre.slot(sid)
                        || self.slot(sid) == (ConnState { closed: true, ..pre.slot(sid) }));
                }
            }
        }
    }

    /// Pull address updates from the inbox. A fresh snapshot that differs
    /// from the current one retires the dropped addresses — their
    /// connections are asked to close — and admits the added ones to the
    /// plan. End-of-stream logs the shutdown reason and begins graceful
    /// shutdown.
    pub fn check_for_address_updates(&mut self)
        requires
            old(self).inv(),
        ensures
            final(self).inv(),
            final(self).metrics == old(self).metrics,
            final(self).blist == old(self).blist,
            final(self).ev_inbox@ == old(self).ev_inbox@,
            final(self).delivered@ == old(self).delivered@,
            final(self).conn_limit == old(self).conn_limit,
            final(self).reconnect_min_ms == old(self).reconnect_min_ms,
            final(self).reconnect_max_ms == old(self).reconnect_max_ms,
            final(self).n_slots() == old(self).n_slots(),
            forall|id: int| 0 <= id < final(self).n_slots()
                ==> (#[trigger] final(self).slot(id)).pending_item
                    == old(self).slot(id).pending_item,
            final(self).live_count() == old(self).live_count(),
            final(self).out_count() == old(self).out_count(),
            final(self).connections.queue@.len() <= old(self).connections.queue@.len(),
            final(self).errors.connection_errors@ == old(self).errors.connection_errors@,
            final(self).errors.sink_errors@ == old(self).errors.sink_errors@,
            old(self).closing ==> final(self).closing,
            old(self).draining() ==> final(self).draining(),
            old(self).addr_inbox@.len() == 0 ==> *final(self) == *old(self),
            stream_ended(old(self).addr_inbox@)
                ==> final(self).closing
                    && final(self).errors.shutdown
                        == Some(ShutdownReason::AddressStreamClosed)
                    && (!old(self).closing ==> final(self).connections.queue@.len() == 0
                        && final(self).draining()),
            !stream_ended(old(self).addr_inbox@) ==> {
                &&& final(self).closing == old(self).closing
                &&& final(self).errors.shutdown == old(self).errors.shutdown
                &&& final(self).addr_inbox@.len() == 0
                &&& (match last_snap(old(self).addr_inbox@) {
                    None => final(self).cur_address@ == old(self).cur_address@
                        && final(self).aligner == old(self).aligner
                        && final(self).connections == old(self).connections,
                    Some(s) => {
                        if s@ == old(self).cur_address@ {
                            final(self).cur_address@ == old(self).cur_address@
                                && final(self).aligner == old(self).aligner
                                && final(self).connections == old(self).connections
                        } else {
                            final(self).cur_address@ == s@
                                && (forall|a: u64| final(self).aligner.spec_knows(a)
                                    <==> s@.contains(a))
                                && (forall|id: int| 0 <= id < final(self).n_slots()
                                    && old(self).cur_address@.contains(
                                        old(self).slot(id).addr)
                                    && !s@.contains(#[trigger] old(self).slot(id).addr)
                                    ==> final(self).slot(id).closed)
                                && (forall|id: int| 0 <= id < final(self).n_slots()
                                    && !(old(self).cur_address@.contains(
                                            old(self).slot(id).addr)
                                        && !s@.contains(
                                            #[trigger] old(self).slot(id).addr))
                                    ==> final(self).slot(id) == old(self).slot(id))
                                && (forall|a: u64| old(self).cur_address@.contains(a)
                                        && s@.contains(a)
                                    ==> final(self).aligner.count_of(a)
                                        == old(self).aligner.count_of(a))
                                && (forall|a: u64| s@.contains(a)
                                        && !old(self).cur_address@.contains(a)
                                    ==> final(self).aligner.count_of(a) == 0)
                        }
                    }
                })
            },
    {
        let ghost pre = *self;
        let new_opt = self.new_addr();
        let new_snap = match new_opt {
            Some(n) => n,
            None => {
                return;
            }
        };
        if new_snap.same_as(&self.cur_address) {
            return;
        }
        let ghost mid = *self;
        let ghost snap_view = new_snap@;
        self.apply_snapshot(new_snap);
        proof {
            assert(!stream_ended(pre.addr_inbox@));
            assert(mid.connections == pre.connections);
            assert(mid.cur_address@ == pre.cur_address@);
            assert forall|id: int| 0 <= id < self.n_slots()
                    && pre.cur_address@.contains(pre.slot(id).addr)
                    && !snap_view.contains(#[trigger] pre.slot(id).addr)
                implies self.slot(id).closed by {
                assert(mid.slot(id) == pre.slot(id));
                assert(mid.cur_address@.contains(mid.slot(id).addr));
            }
        }
    }

    /// Ask the planner for the next address to connect; on success,
    /// charge the plan, record the attempt, and create a fresh pending
    /// handle for it. `None` when no address qualifies.
    fn do_connect(&mut self) -> (r: Option<u64>)
        requires
            old(self).inv(),
        ensures
            final(self).inv(),
            final(self).closing == old(self).closing,
            final(self).cur_address@ == old(self).cur_address@,
            final(self).blist == old(self).blist,
            final(self).errors == old(self).errors,
            final(self).addr_inbox@ == old(self).addr_inbox@,
            final(self).ev_inbox@ == old(self).ev_inbox@,
            final(self).delivered@ == old(self).delivered@,
            final(self).conn_limit == old(self).conn_limit,
            final(self).reconnect_min_ms == old(self).reconnect_min_ms,
            final(self).reconnect_max_ms == old(self).reconnect_max_ms,
            final(self).connections.queue@ == old(self).connections.queue@,
            final(self).live_count() == old(self).live_count(),
            old(self).at_rest() ==> final(self).at_rest(),
            match r {
                None => {
                    &&& final(self).aligner == old(self).aligner
                    &&& final(self).connections == old(self).connections
                    &&& final(self).metrics == old(self).metrics
                    &&& final(self).n_slots() == old(self).n_slots()
                    &&& final(self).out_count() == old(self).out_count()
                    &&& forall|i: int| !old(self).aligner.eligible(
                        old(self).conn_limit, &old(self).blist, i)
                },
                Some(a) => {
                    &&& !old(self).blist.spec_failing(a)
                    &&& old(self).aligner.spec_knows(a)
                    &&& old(self).aligner.count_of(a) < old(self).conn_limit
                    &&& forall|i: int| old(self).aligner.eligible(
                            old(self).conn_limit, &old(self).blist, i)
                        ==> old(self).aligner.count_of(a)
                            <= #[trigger] old(self).aligner.entries@[i].count
                    &&& final(self).aligner.count_of(a) == old(self).aligner.count_of(a) + 1
                    &&& (forall|x: u64| final(self).aligner.spec_knows(x)
                        == old(self).aligner.spec_knows(x))
                    &&& (forall|x: u64| x != a && old(self).aligner.spec_knows(x)
                        ==> final(self).aligner.count_of(x)
                            == old(self).aligner.count_of(x))
                    &&& final(self).deficit() == old(self).deficit() - 1
                    &&& final(self).n_slots() == old(self).n_slots() + 1
                    &&& final(self).connections.slots@ == old(self).connections.slots@
                        .push((ConnState {
                            addr: a, phase: ConnPhase::Pending, closed: false,
                            sink_ready: false, pending_item: None::<I>,
                        }))
                    &&& final(self).metrics == (Metrics {
                        connection_attempt: spec_bump(old(self).metrics.connection_attempt),
                        ..old(self).metrics
                    })
                    &&& final(self).out_count() == old(self).out_count() + 1
                },
            },
    {
        let r = self.aligner.get(self.conn_limit, &self.blist);
        match r {
            Some(addr) => {
                self.metrics.connection_attempt = bump(self.metrics.connection_attempt);
                let ghost pre_slots = self.connections.slots@;
                let _id = self.connections.new_slot(addr);
                proof {
                    crate::seqtools::lemma_count_push(
                        pre_slots, p_live::<I>(),
                        self.connections.slots@.last());
                    crate::seqtools::lemma_count_push(
                        pre_slots, p_out::<I>(),
                        self.connections.slots@.last());
                    if old(self).at_rest() {
                        assert forall|id: int| 0 <= id < self.n_slots()
                            implies (#[trigger] self.slot(id).pending_item) is None by {
                            if id < self.n_slots() - 1 {
                                assert(self.slot(id) == old(self).slot(id));
                            } else {
                                assert(self.slot(id).pending_item is None);
                            }
                        }
                    }
                }
                Some(addr)
            }
            None => None,
        }
    }

    /// The connection task behind `id` runs once: if it is live, open,
    /// and its sink is writable, it takes the in-flight item, pushes it,
    /// and re-enqueues its handle.
    fn helper_step(&mut self, id: usize)
        requires
            old(self).inv(),
            id < old(self).n_slots(),
        ensures
            final(self).inv(),
            final(self).ev_inbox@ == old(self).ev_inbox@,
            final(self).addr_inbox@ == old(self).addr_inbox@,
            final(self).closing == old(self).closing,
            final(self).cur_address@ == old(self).cur_address@,
            final(self).conn_limit == old(self).conn_limit,
            final(self).reconnect_min_ms == old(self).reconnect_min_ms,
            final(self).reconnect_max_ms == old(self).reconnect_max_ms,
            final(self).metrics == old(self).metrics,
            final(self).blist == old(self).blist,
            final(self).aligner == old(self).aligner,
            final(self).errors == old(self).errors,
            final(self).n_slots() == old(self).n_slots(),
            final(self).live_count() == old(self).live_count(),
            final(self).out_count() == old(self).out_count(),
            (old(self).slot(id as int).phase is Live && !old(self).slot(id as int).closed
                && old(self).slot(id as int).sink_ready
                && old(self).slot(id as int).pending_item is Some) ==> {
                &&& final(self).connections.slots@ == old(self).connections.slots@
                    .update(id as int, (ConnState {
                        pending_item: None::<I>, ..old(self).slot(id as int)
                    }))
                &&& (old(self).slot(id as int).pending_item matches Some(it)
                    && final(self).delivered@ == old(self).delivered@
                        .push((Delivery { conn: id, item: it })))
                &&& (!old(self).connections.in_queue(id as int)
                    ==> final(self).connections.queue@
                        == old(self).connections.queue@.push(id))
                &&& (old(self).connections.in_queue(id as int)
                    ==> final(self).connections.queue@ == old(self).connections.queue@)
            },
            !(old(self).slot(id as int).phase is Live && !old(self).slot(id as int).closed
                && old(self).slot(id as int).sink_ready
                && old(self).slot(id as int).pending_item is Some) ==> {
                &&& final(self).connections.slots@ == old(self).connections.slots@
                &&& final(self).connections.queue@ == old(self).connections.queue@
                &&& final(self).delivered@ == old(self).delivered@
            },
    {
        let ghost pre = *self;
        let is_live = match self.connections.slots[id].phase {
            ConnPhase::Live => true,
            _ => false,
        };
        if !is_live || self.connections.slots[id].closed
            || !self.connections.slots[id].sink_ready
            || self.connections.slots[id].pending_item.is_none() {
            return;
        }
        let item_opt = self.connections.take_pending(id);
        let item = match item_opt {
            Some(it) => it,
            None => {
                proof {
                    assert(false);
                }
                return;
            }
        };
        self.delivered.push(Delivery { conn: id, item });
        let queued = crate::seqtools::vec_contains_usize(&self.connections.queue, id);
        proof {
            if queued {
                let p = choose|p: int|
                    0 <= p < self.connections.queue@.len()
                        && self.connections.queue@[p] == id;
                assert(self.connections.queue@[p] as int == id);
                assert(self.connections.in_queue(id as int));
                assert(pre.connections.in_queue(id as int));
            } else {
                assert(!self.connections.in_queue(id as int)) by {
                    if self.connections.in_queue(id as int) {
                        let p = choose|p: int|
                            0 <= p < self.connections.queue@.len()
                                && #[trigger] self.connections.queue@[p] as int == id;
                        assert(self.connections.queue@.contains(id));
                    }
                }
                assert(!pre.connections.in_queue(id as int));
            }
        }
        if !queued {
            self.connections.add(id);
        }
        proof {
            crate::seqtools::lemma_count_update(
                pre.connections.slots@, p_live::<I>(), id as int,
                self.connections.slots@[id as int]);
            crate::seqtools::lemma_count_update(
                pre.connections.slots@, p_out::<I>(), id as int,
                self.connections.slots@[id as int]);
            crate::seqtools::lemma_count_update(
                pre.connections.slots@, p_out::<I>(), id as int,
                self.connections.slots@[id as int]);
        }
    }

    /// One pass of the dispatch loop: pop ready connections in order and
    /// try to place the item, draining completions between steps.
    fn dispatch_phase(&mut self, item: I, now_ms: u64) -> (r: DispatchOutcome<I>)
        requires
            old(self).inv(),
            old(self).at_rest(),
            now_ms + old(self).reconnect_max_ms <= u64::MAX,
        ensures
            final(self).inv(),
            final(self).at_rest(),
            final(self).addr_inbox@ == old(self).addr_inbox@,
            final(self).closing == old(self).closing,
            final(self).cur_address@ == old(self).cur_address@,
            final(self).conn_limit == old(self).conn_limit,
            final(self).reconnect_min_ms == old(self).reconnect_min_ms,
            final(self).reconnect_max_ms == old(self).reconnect_max_ms,
            final(self).n_slots() == old(self).n_slots(),
            final(self).total_meas() <= old(self).total_meas(),
            match r {
                DispatchOutcome::Accepted => exists|c: usize|
                    (c as int) < final(self).n_slots()
                        && (#[trigger] final(self).slot(c as int)).phase is Live
                        && !final(self).slot(c as int).closed
                        && final(self).delivered@
                            == old(self).delivered@.push((Delivery { conn: c, item })),
                DispatchOutcome::NoReady(it) => {
                    &&& it == item
                    &&& final(self).delivered@ == old(self).delivered@
                    &&& final(self).connections.queue@.len() == 0
                    &&& final(self).ev_inbox@.len() == 0
                },
            },
            (old(self).ev_inbox@.len() == 0
                && exists|p: int| 0 <= p < old(self).connections.queue@.len()
                    && (#[trigger] old(self).slot(
                        old(self).connections.queue@[p] as int)).sink_ready)
                ==> r is Accepted,
    {
        let ghost pre = *self;
        let mut cur = item;
        loop
            invariant
                self.inv(),
                self.at_rest(),
                pre == *old(self),
                now_ms + self.reconnect_max_ms <= u64::MAX,
                self.addr_inbox@ == pre.addr_inbox@,
                self.closing == pre.closing,
                self.cur_address@ == pre.cur_address@,
                self.conn_limit == pre.conn_limit,
                self.reconnect_min_ms == pre.reconnect_min_ms,
                self.reconnect_max_ms == pre.reconnect_max_ms,
                self.n_slots() == pre.n_slots(),
                self.delivered@ == pre.delivered@,
                self.total_meas() <= pre.total_meas(),
                cur == item,
                pre.ev_inbox@.len() == 0 ==> self.ev_inbox@.len() == 0,
                (pre.ev_inbox@.len() == 0
                    && exists|p: int| 0 <= p < pre.connections.queue@.len()
                        && (#[trigger] pre.slot(
                            pre.connections.queue@[p] as int)).sink_ready)
                    ==> exists|p: int| 0 <= p < self.connections.queue@.len()
                        && (#[trigger] self.slot(
                            self.connections.queue@[p] as int)).sink_ready,
            decreases self.disp_meas(),
        {
            let ghost head = *self;
            let nxt = self.connections.next();
            match nxt {
                Some(id) => {
                    if self.connections.slots[id].closed {
                        continue;
                    }
                    let ghost g0 = *self;
                    proof {
                        assert(self.connections.slots@[id as int]
                            == head.connections.slots@[id as int]);
                        assert(head.slot(id as int).pending_item is None);
                    }
                    self.connections.put_pending(id, cur);
                    let ghost g1 = *self;
                    self.poll_futures(now_ms);
                    let ghost g2 = *self;
                    self.helper_step(id);
                    let ghost g3 = *self;
                    let back = self.connections.take_pending(id);
                    proof {
                        assert forall|sid: int| 0 <= sid < self.n_slots()
                            implies (#[trigger] self.slot(sid).pending_item)
                                is None by {
                            if sid != id as int {
                                assert(self.slot(sid).pending_item
                                    == g3.slot(sid).pending_item);
                                assert(g3.slot(sid).pending_item
                                    == g2.slot(sid).pending_item);
                                assert(g2.slot(sid).pending_item
                                    == g1.slot(sid).pending_item);
                                assert(g1.slot(sid).pending_item
                                    == g0.slot(sid).pending_item);
                                assert(g0.slot(sid).pending_item
                                    == head.slot(sid).pending_item);
                                assert(head.slot(sid).pending_item is None);
                            }
                        }
                    }
                    match back {
                        Some(it) => {
                            cur = it;
                            proof {
                                if pre.ev_inbox@.len() == 0
                                    && (exists|p: int|
                                        0 <= p < pre.connections.queue@.len()
                                            && (#[trigger] pre.slot(
                                                pre.connections.queue@[p] as int))
                                                .sink_ready) {
                                    let p = choose|p: int|
                                        0 <= p < head.connections.queue@.len()
                                            && (#[trigger] head.slot(
                                                head.connections.queue@[p] as int))
                                                .sink_ready;
                                    assert(g2 == g1);
                                    if p == 0 {
                                        assert(head.connections.queue@[0] == id);
                                        assert(g1.slot(id as int).phase is Live);
                                        assert(!g1.slot(id as int).closed);
                                        assert(g1.slot(id as int).sink_ready);
                                        assert(g1.slot(id as int).pending_item is Some);
                                        assert(g3.slot(id as int).pending_item is None);
                                        assert(false);
                                    } else {
                                        let w = head.connections.queue@[p];
                                        assert(w != id);
                                        assert(self.connections.queue@
                                            == head.connections.queue@.subrange(
                                                1, head.connections.queue@.len() as int));
                                        assert(self.connections.queue@[p - 1] == w);
                                        assert(self.slot(w as int).sink_ready
                                            == head.slot(w as int).sink_ready) by {
                                            assert(g1.slot(w as int) == head.slot(w as int));
                                            assert(g2.slot(w as int) == g1.slot(w as int));
                                            assert(g3.slot(w as int) == g2.slot(w as int));
                                            assert(self.slot(w as int) == g3.slot(w as int));
                                        }
                                        assert(self.slot(
                                            self.connections.queue@[p - 1] as int)
                                            .sink_ready);
                                    }
                                }
                            }
                        }
                        None => {
                            proof {
                                assert(g3.slot(id as int).phase is Live);
                                assert(!g3.slot(id as int).closed);
                                assert(self.slot(id as int).phase is Live);
                                assert(!self.slot(id as int).closed);
                            }
                            return DispatchOutcome::Accepted;
                        }
                    }
                }
                None => {
                    self.poll_futures(now_ms);
                    if !self.connections.has_ready() {
                        return DispatchOutcome::NoReady(cur);
                    }
                }
            }
        }
    }

    /// One pass of the connect loop: open new connections while the plan
    /// allows, and when it does not, let expired blacklist entries back
    /// in.
    fn connect_phase(&mut self, now_ms: u64) -> (r: ConnectOutcome)
        requires
            old(self).inv(),
            old(self).at_rest(),
            now_ms + old(self).reconnect_max_ms <= u64::MAX,
        ensures
            final(self).inv(),
            final(self).at_rest(),
            final(self).addr_inbox@ == old(self).addr_inbox@,
            final(self).closing == old(self).closing,
            final(self).cur_address@ == old(self).cur_address@,
            final(self).conn_limit == old(self).conn_limit,
            final(self).reconnect_min_ms == old(self).reconnect_min_ms,
            final(self).reconnect_max_ms == old(self).reconnect_max_ms,
            final(self).delivered@ == old(self).delivered@,
            final(self).total_meas() <= old(self).total_meas(),
            r is Resume ==> final(self).total_meas() < old(self).total_meas(),
            (old(self).ev_inbox@.len() == 0 && r is Stuck) ==> {
                ||| exists|id: int| 0 <= id < final(self).n_slots()
                        && (#[trigger] final(self).slot(id)).phase is Pending
                        && !final(self).blist.spec_failing(final(self).slot(id).addr)
                ||| {
                    &&& forall|i: int| !final(self).aligner.eligible(
                            final(self).conn_limit, &final(self).blist, i)
                    &&& forall|j: int| 0 <= j < final(self).blist.entries@.len()
                            ==> (#[trigger] final(self).blist.entries@[j]).deadline_ms
                                > now_ms
                }
            },
    {
        let ghost pre = *self;
        loop
            invariant
                self.inv(),
                self.at_rest(),
                pre == *old(self),
                now_ms + self.reconnect_max_ms <= u64::MAX,
                self.addr_inbox@ == pre.addr_inbox@,
                self.closing == pre.closing,
                self.cur_address@ == pre.cur_address@,
                self.conn_limit == pre.conn_limit,
                self.reconnect_min_ms == pre.reconnect_min_ms,
                self.reconnect_max_ms == pre.reconnect_max_ms,
                self.delivered@ == pre.delivered@,
                self.total_meas() <= pre.total_meas(),
                pre.ev_inbox@.len() == 0 ==> self.ev_inbox@.len() == 0,
            decreases self.conn_meas(),
        {
            let ghost iter0 = *self;
            proof {
                self.lemma_deficit_nonneg();
            }
            loop
                invariant
                    self.inv(),
                    self.at_rest(),
                    pre == *old(self),
                    now_ms + self.reconnect_max_ms <= u64::MAX,
                    self.addr_inbox@ == pre.addr_inbox@,
                    self.closing == pre.closing,
                    self.cur_address@ == pre.cur_address@,
                    self.conn_limit == pre.conn_limit,
                    self.reconnect_min_ms == pre.reconnect_min_ms,
                    self.reconnect_max_ms == pre.reconnect_max_ms,
                    self.delivered@ == pre.delivered@,
                    self.total_meas() <= pre.total_meas(),
                    self.conn_meas() <= iter0.conn_meas(),
                    pre.ev_inbox@.len() == 0 ==> self.ev_inbox@.len() == 0,
                ensures
                    forall|i: int| !self.aligner.eligible(
                        self.conn_limit, &self.blist, i),
                decreases self.conn_meas(),
            {
                proof {
                    self.lemma_deficit_nonneg();
                }
                let ghost it_start = *self;
                let got = self.do_connect();
                match got {
                    Some(addr) => {
                        proof {
                            assert(self.conn_meas() == it_start.conn_meas() - 1);
                            assert(self.total_meas() == it_start.total_meas() - 1);
                        }
                        self.poll_futures(now_ms);
                        proof {
                            assert(self.conn_meas() <= it_start.conn_meas() - 1);
                            assert(self.total_meas() <= it_start.total_meas() - 1);
                            self.lemma_deficit_nonneg();
                        }
                        if self.connections.has_ready() {
                            return ConnectOutcome::Resume;
                        }
                        if !self.blist.is_failing(addr) {
                            proof {
                                if pre.ev_inbox@.len() == 0 {
                                    assert(self.slot(self.n_slots() - 1).phase
                                        is Pending);
                                    assert(self.slot(self.n_slots() - 1).addr == addr);
                                }
                            }
                            return ConnectOutcome::Stuck;
                        }
                    }
                    None => {
                        break;
                    }
                }
            }
            let ghost bl0 = *self;
            let mut removed = false;
            loop
                invariant
                    self.inv(),
                    self.at_rest(),
                    self.connections == bl0.connections,
                    bl0.at_rest(),
                    pre == *old(self),
                    now_ms + self.reconnect_max_ms <= u64::MAX,
                    self.addr_inbox@ == pre.addr_inbox@,
                    self.closing == pre.closing,
                    self.cur_address@ == pre.cur_address@,
                    self.conn_limit == pre.conn_limit,
                    self.reconnect_min_ms == pre.reconnect_min_ms,
                    self.reconnect_max_ms == pre.reconnect_max_ms,
                    self.delivered@ == pre.delivered@,
                    self.total_meas() <= pre.total_meas(),
                    self.conn_meas() <= iter0.conn_meas(),
                    removed ==> self.conn_meas() <= iter0.conn_meas() - 1,
                    pre.ev_inbox@.len() == 0 ==> self.ev_inbox@.len() == 0,
                    !removed ==> *self == bl0,
                ensures
                    forall|j: int| 0 <= j < self.blist.entries@.len()
                        ==> (#[trigger] self.blist.entries@[j]).deadline_ms > now_ms,
                decreases self.blist.entries@.len(),
            {
                let expired = self.blist.poll_expired(now_ms);
                match expired {
                    Some(_a) => {
                        self.metrics.blacklist_remove = bump(self.metrics.blacklist_remove);
                        removed = true;
                    }
                    None => {
                        break;
                    }
                }
                proof {
                    assert forall|sid: int| 0 <= sid < self.n_slots()
                        implies (#[trigger] self.slot(sid).pending_item) is None by {
                        assert(self.slot(sid) == bl0.slot(sid));
                    }
                }
            }
            if !removed {
                proof {
                    assert(*self == bl0);
                    assert(forall|i: int| !self.aligner.eligible(
                        self.conn_limit, &self.blist, i));
                }
                return ConnectOutcome::Stuck;
            }
            proof {
                self.lemma_deficit_nonneg();
            }
        }
    }

    /// Offer one item to the pool. `Ready` means some connection took
    /// it; `NotReady` hands the same item back, to be offered again after
    /// the next wake-up; `Done` means the pool has closed and drained.
    pub fn start_send(&mut self, v: I, now_ms: u64) -> (r: SendOutcome<I>)
        requires
            old(self).inv(),
            old(self).at_rest(),
            now_ms + old(self).reconnect_max_ms <= u64::MAX,
        ensures
            final(self).inv(),
            final(self).at_rest(),
            final(self).conn_limit == old(self).conn_limit,
            final(self).reconnect_min_ms == old(self).reconnect_min_ms,
            final(self).reconnect_max_ms == old(self).reconnect_max_ms,
            old(self).closing ==> final(self).closing,
            old(self).closing ==> {
                &&& (r is Done <==> final(self).out_count() == 0)
                &&& (r is Done || r == SendOutcome::NotReady(v))
                &&& final(self).ev_inbox@.len() == 0
                &&& final(self).cur_address@ == old(self).cur_address@
                &&& final(self).addr_inbox@ == old(self).addr_inbox@
                &&& final(self).n_slots() == old(self).n_slots()
                &&& final(self).metrics.connection_attempt
                    == old(self).metrics.connection_attempt
                &&& steps_to(*old(self), old(self).ev_inbox@, now_ms, *final(self))
            },
            !old(self).closing ==> !(r is Done),
            r is Done ==> final(self).closing && final(self).out_count() == 0,
            (!old(self).closing && old(self).addr_inbox@.len() == 0
                && old(self).ev_inbox@.len() == 0
                && exists|p: int| 0 <= p < old(self).connections.queue@.len()
                    && (#[trigger] old(self).slot(
                        old(self).connections.queue@[p] as int)).sink_ready)
                ==> r is Ready,
            (!old(self).closing && r matches SendOutcome::NotReady(_)) ==> {
                ||| exists|id: int| 0 <= id < final(self).n_slots()
                        && (#[trigger] final(self).slot(id)).phase is Pending
                        && !final(self).blist.spec_failing(final(self).slot(id).addr)
                ||| {
                    &&& forall|i: int| !final(self).aligner.eligible(
                            final(self).conn_limit, &final(self).blist, i)
                    &&& forall|j: int| 0 <= j < final(self).blist.entries@.len()
                            ==> (#[trigger] final(self).blist.entries@[j]).deadline_ms
                                > now_ms
                }
            },
            match r {
                SendOutcome::Ready => exists|c: usize|
                    (c as int) < final(self).n_slots()
                        && (#[trigger] final(self).slot(c as int)).phase is Live
                        && !final(self).slot(c as int).closed
                        && final(self).delivered@
                            == old(self).delivered@.push((Delivery { conn: c, item: v })),
                SendOutcome::NotReady(w) => {
                    &&& w == v
                    &&& final(self).delivered@ == old(self).delivered@
                },
                SendOutcome::Done => final(self).delivered@ == old(self).delivered@,
            },
            old(self).draining()
                ==> final(self).draining()
                    && final(self).live_count() <= old(self).live_count()
                    && final(self).out_count() <= old(self).out_count(),
    {
        if self.closing {
            self.poll_futures(now_ms);
            if self.count_outstanding() == 0 {
                return SendOutcome::Done;
            }
            return SendOutcome::NotReady(v);
        }
        self.check_for_address_updates();
        let ghost entry = *self;
        let mut item = v;
        loop
            invariant
                self.inv(),
                self.at_rest(),
                entry.inv(),
                !old(self).closing,
                now_ms + self.reconnect_max_ms <= u64::MAX,
                self.conn_limit == old(self).conn_limit,
                self.reconnect_min_ms == old(self).reconnect_min_ms,
                self.reconnect_max_ms == old(self).reconnect_max_ms,
                self.delivered@ == old(self).delivered@,
                item == v,
                (old(self).addr_inbox@.len() == 0 && old(self).ev_inbox@.len() == 0
                    && exists|p: int| 0 <= p < old(self).connections.queue@.len()
                        && (#[trigger] old(self).slot(
                            old(self).connections.queue@[p] as int)).sink_ready)
                    ==> *self == *old(self),
            decreases self.total_meas(),
        {
            proof {
                self.lemma_deficit_nonneg();
            }
            let disp = self.dispatch_phase(item, now_ms);
            match disp {
                DispatchOutcome::Accepted => {
                    return SendOutcome::Ready;
                }
                DispatchOutcome::NoReady(it) => {
                    item = it;
                }
            }
            let conn = self.connect_phase(now_ms);
            match conn {
                ConnectOutcome::Resume => {}
                ConnectOutcome::Stuck => {
                    return SendOutcome::NotReady(item);
                }
            }
            proof {
                self.lemma_deficit_nonneg();
            }
        }
    }

    /// Poll for progress: drain completions and, outside of shutdown,
    /// blacklist expirations. The pool is a continuous conduit and never
    /// reports itself flushed; once closing and drained it reports
    /// `Done`.
    pub fn poll_complete(&mut self, now_ms: u64) -> (r: PollOutcome)
        requires
            old(self).inv(),
            old(self).at_rest(),
            now_ms + old(self).reconnect_max_ms <= u64::MAX,
        ensures
            final(self).inv(),
            final(self).at_rest(),
            final(self).closing == old(self).closing,
            final(self).delivered@ == old(self).delivered@,
            final(self).conn_limit == old(self).conn_limit,
            final(self).reconnect_min_ms == old(self).reconnect_min_ms,
            final(self).reconnect_max_ms == old(self).reconnect_max_ms,
            r is Done <==> (old(self).closing && final(self).out_count() == 0),
            final(self).ev_inbox@.len() == 0,
            old(self).closing
                ==> steps_to(*old(self), old(self).ev_inbox@, now_ms, *final(self)),
            !old(self).closing ==> forall|j: int|
                0 <= j < final(self).blist.entries@.len()
                    ==> (#[trigger] final(self).blist.entries@[j]).deadline_ms > now_ms,
            (!old(self).closing && old(self).ev_inbox@.len() == 0
                && old(self).metrics.blacklist_remove + old(self).blist.entries@.len()
                    < u64::MAX)
                ==> final(self).metrics.blacklist_remove
                    == old(self).metrics.blacklist_remove
                        + old(self).blist.entries@.len()
                        - final(self).blist.entries@.len(),
            old(self).draining()
                ==> final(self).draining()
                    && final(self).live_count() <= old(self).live_count()
                    && final(self).out_count() <= old(self).out_count(),
    {
        if self.closing {
            self.poll_futures(now_ms);
            if self.count_outstanding() == 0 {
                return PollOutcome::Done;
            }
            return PollOutcome::NotReady;
        }
        self.poll_futures(now_ms);
        let ghost mid = *self;
        loop
            invariant
                self.inv(),
                self.at_rest(),
                self.connections == mid.connections,
                mid.at_rest(),
                !self.closing,
                self.closing == mid.closing,
                self.delivered@ == mid.delivered@,
                self.conn_limit == mid.conn_limit,
                self.reconnect_min_ms == mid.reconnect_min_ms,
                self.reconnect_max_ms == mid.reconnect_max_ms,
                self.ev_inbox@.len() == 0,
                self.blist.entries@.len() <= mid.blist.entries@.len(),
                mid.metrics.blacklist_remove + mid.blist.entries@.len() < u64::MAX
                    ==> self.metrics.blacklist_remove
                        == mid.metrics.blacklist_remove
                            + mid.blist.entries@.len() - self.blist.entries@.len(),
            ensures
                forall|j: int| 0 <= j < self.blist.entries@.len()
                    ==> (#[trigger] self.blist.entries@[j]).deadline_ms > now_ms,
            decreases self.blist.entries@.len(),
        {
            let expired = self.blist.poll_expired(now_ms);
            match expired {
                Some(_a) => {
                    self.metrics.blacklist_remove = bump(self.metrics.blacklist_remove);
                }
                None => {
                    break;
                }
            }
            proof {
                assert forall|sid: int| 0 <= sid < self.n_slots()
                    implies (#[trigger] self.slot(sid).pending_item) is None by {
                    assert(self.slot(sid) == mid.slot(sid));
                }
            }
        }
        PollOutcome::NotReady
    }

    /// Begin graceful shutdown and drain once. `Ready` when no
    /// outstanding work remains; `NotReady` asks the caller to keep
    /// polling until `Done` comes back from the other operations.
    pub fn close(&mut self, now_ms: u64) -> (r: CloseOutcome)
        requires
            old(self).inv(),
            old(self).at_rest(),
            now_ms + old(self).reconnect_max_ms <= u64::MAX,
        ensures
            final(self).inv(),
            final(self).at_rest(),
            final(self).closing,
            final(self).delivered@ == old(self).delivered@,
            final(self).conn_limit == old(self).conn_limit,
            final(self).reconnect_min_ms == old(self).reconnect_min_ms,
            final(self).reconnect_max_ms == old(self).reconnect_max_ms,
            r is Ready <==> final(self).out_count() == 0,
            final(self).ev_inbox@.len() == 0,
            old(self).closing
                ==> steps_to(*old(self), old(self).ev_inbox@, now_ms, *final(self)),
            !old(self).closing ==> final(self).draining(),
            old(self).draining()
                ==> final(self).draining()
                    && final(self).live_count() <= old(self).live_count()
                    && final(self).out_count() <= old(self).out_count(),
    {
        self.start_closing();
        let ghost mid = *self;
        proof {
            if !old(self).closing {
                assert(mid.draining());
            }
        }
        self.poll_futures(now_ms);
        proof {
            if !old(self).closing {
                assert(self.draining());
            }
        }
        if self.count_outstanding() == 0 {
            return CloseOutcome::Ready;
        }
        CloseOutcome::NotReady
    }
}

impl LazyUniform {
    /// Build the pool driver. The jittered reconnect window is
    /// `[t/2, t + t/2)` for a reconnect timeout of `t` milliseconds.
    pub fn construct<I>(self) -> (r: Lazy<I>)
        requires
            self.conn_limit >= 1,
            1 <= self.reconnect_timeout_ms <= u64::MAX / 2,
        ensures
            r.inv(),
            r.at_rest(),
            !r.closing,
            r.conn_limit == self.conn_limit,
            r.reconnect_min_ms == self.reconnect_timeout_ms / 2,
            r.reconnect_max_ms == self.reconnect_timeout_ms + self.reconnect_timeout_ms / 2,
            r.connections.slots@.len() == 0,
            r.connections.queue@.len() == 0,
            r.cur_address@.len() == 0,
            r.blist.entries@.len() == 0,
            r.aligner.entries@.len() == 0,
            r.addr_inbox@.len() == 0,
            r.ev_inbox@.len() == 0,
            r.delivered@.len() == 0,
            r.metrics == (Metrics {
                connection_attempt: 0u64, connection: 0u64, connection_error: 0u64,
                connection_abort: 0u64, disconnect: 0u64, blacklist_add: 0u64,
                blacklist_remove: 0u64,
            }),
            r.errors.shutdown is None,
            r.errors.connection_errors@.len() == 0,
            r.errors.sink_errors@.len() == 0,
    {
        let t = self.reconnect_timeout_ms;
        Lazy {
            conn_limit: self.conn_limit,
            reconnect_min_ms: t / 2,
            reconnect_max_ms: t + t / 2,
            closing: false,
            cur_address: AddressSnapshot::empty(),
            connections: Connections::new(),
            blist: Blacklist::new(),
            aligner: Aligner::new(),
            addr_inbox: Vec::new(),
            ev_inbox: Vec::new(),
            metrics: Metrics::new(),
            errors: ErrorTrace::new(),
            delivered: Vec::new(),
        }
    }
}

/// Relies on rand::random_range over `min_ms..max_ms`: a sample uniform
/// in the half-open range, from the thread-local generator; it panics
/// only on an empty range, which the precondition rules out.
#[verifier::external_body]
fn jitter_in(min_ms: u64, max_ms: u64) -> (r: u64)
    requires
        min_ms < max_ms,
    ensures
        min_ms <= r < max_ms,
{
    rand::random_range(min_ms..max_ms)
}

} // verus!
