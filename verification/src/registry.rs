//! The connection registry: the arena of connection handles, the
//! round-robin ready queue, and the full live set.
//!
//! A handle is the shared cell between the driver and one connection
//! task; here the cells live in one arena, indexed by a small integer,
//! and both sides name a cell by its index. A handle is in the ready
//! queue exactly when the connection behind it can take the next item;
//! the queue preserves insertion order, which realizes round-robin.

use vstd::prelude::*;

verus! {

/// Where a connection stands in its life.
pub enum ConnPhase {
    /// The connect attempt is still outstanding.
    Pending,
    /// The connection is established and its task runs.
    Live,
    /// The connection has ended; the slot stays as a tombstone.
    Gone,
}

/// The shared state of one connection handle.
pub struct ConnState<I> {
    /// The host this connection belongs to.
    pub addr: u64,
    /// Where the connection stands.
    pub phase: ConnPhase,
    /// The driver has asked this connection to finish.
    pub closed: bool,
    /// The connection's sink can take an item right now.
    pub sink_ready: bool,
    /// The one in-flight item deposited by the driver and not yet taken
    /// by the connection task.
    pub pending_item: Option<I>,
}

/// The registry: every handle ever created, plus the ready queue of
/// handle indices.
pub struct Connections<I> {
    pub slots: Vec<ConnState<I>>,
    pub queue: Vec<usize>,
}

impl<I> Connections<I> {
    /// Whether the handle `id` currently sits in the ready queue.
    pub open spec fn in_queue(&self, id: int) -> bool {
        exists|p: int| 0 <= p < self.queue@.len() && #[trigger] self.queue@[p] as int == id
    }

    /// Queue entries are valid, distinct, and point at live handles that
    /// were not asked to close.
    pub open spec fn wf(&self) -> bool {
        &&& forall|p: int| 0 <= p < self.queue@.len()
                ==> (#[trigger] self.queue@[p] as int) < self.slots@.len()
        &&& forall|p: int, q: int|
                0 <= p < q < self.queue@.len()
                    ==> #[trigger] self.queue@[p] != #[trigger] self.queue@[q]
        &&& forall|p: int| 0 <= p < self.queue@.len()
                ==> (#[trigger] self.slots@[self.queue@[p] as int].phase) is Live
                    && !self.slots@[self.queue@[p] as int].closed
    }

    pub fn new() -> (r: Connections<I>)
        ensures
            r.wf(),
            r.slots@.len() == 0,
            r.queue@.len() == 0,
    {
        Connections { slots: Vec::new(), queue: Vec::new() }
    }

    /// Whether some connection is ready to take an item.
    pub fn has_ready(&self) -> (r: bool)
        ensures
            r == (self.queue@.len() > 0),
    {
        self.queue.len() > 0
    }

    /// Create a fresh handle for a connect attempt to `addr`.
    pub fn new_slot(&mut self, addr: u64) -> (id: usize)
        requires
            old(self).wf(),
        ensures
            final(self).wf(),
            id == old(self).slots@.len(),
            final(self).slots@ == old(self).slots@.push(
                (ConnState { addr, phase: ConnPhase::Pending, closed: false,
                             sink_ready: false, pending_item: None::<I> })),
            final(self).queue@ == old(self).queue@,
    {
        let id = self.slots.len();
        self.slots.push(ConnState {
            addr,
            phase: ConnPhase::Pending,
            closed: false,
            sink_ready: false,
            pending_item: None,
        });
        id
    }

    /// Append `id` to the back of the ready queue.
    pub fn add(&mut self, id: usize)
        requires
            old(self).wf(),
            id < old(self).slots@.len(),
            old(self).slots@[id as int].phase is Live,
            !old(self).slots@[id as int].closed,
            !old(self).in_queue(id as int),
        ensures
            final(self).wf(),
            final(self).queue@ == old(self).queue@.push(id),
            final(self).slots@ == old(self).slots@,
            final(self).in_queue(id as int),
    {
        self.queue.push(id);
        proof {
            assert(self.queue@[self.queue@.len() - 1] == id);
        }
    }

    /// Pop the front of the ready queue; the returned handle leaves the
    /// queue.
    pub fn next(&mut self) -> (r: Option<usize>)
        requires
            old(self).wf(),
        ensures
            final(self).wf(),
            final(self).slots@ == old(self).slots@,
            match r {
                None => *final(self) == *old(self) && old(self).queue@.len() == 0,
                Some(id) => {
                    &&& old(self).queue@.len() > 0
                    &&& id == old(self).queue@[0]
                    &&& final(self).queue@ == old(self).queue@.subrange(
                        1, old(self).queue@.len() as int)
                    &&& (id as int) < old(self).slots@.len()
                    &&& old(self).slots@[id as int].phase is Live
                    &&& !old(self).slots@[id as int].closed
                    &&& !final(self).in_queue(id as int)
                },
            },
    {
        if self.queue.len() == 0 {
            return None;
        }
        let ghost pre = *self;
        let id = self.queue.remove(0);
        proof {
            assert(forall|p: int| 0 <= p < self.queue@.len()
                ==> #[trigger] self.queue@[p] == pre.queue@[p + 1]);
            assert(!self.in_queue(id as int)) by {
                if self.in_queue(id as int) {
                    let p = choose|p: int|
                        0 <= p < self.queue@.len() && #[trigger] self.queue@[p] as int == id;
                    assert(pre.queue@[p + 1] == pre.queue@[0]);
                }
            }
        }
        Some(id)
    }

    /// Remove `id` from the ready queue if it is there.
    fn dequeue(&mut self, id: usize)
        requires
            old(self).wf(),
        ensures
            final(self).wf(),
            final(self).slots@ == old(self).slots@,
            !final(self).in_queue(id as int),
            forall|x: int| x != id ==> final(self).in_queue(x) == old(self).in_queue(x),
            final(self).queue@.len() <= old(self).queue@.len(),
            !old(self).in_queue(id as int) ==> *final(self) == *old(self),
    {
        let ghost pre = *self;
        let mut p: usize = 0;
        while p < self.queue.len()
            invariant
                p <= self.queue.len(),
                *self == pre,
                pre == *old(self),
                pre.wf(),
                forall|q: int| 0 <= q < p ==> #[trigger] self.queue@[q] != id,
            decreases self.queue.len() - p,
        {
            if self.queue[p] == id {
                self.queue.remove(p);
                proof {
                    let pi = p as int;
                    assert(forall|q: int| 0 <= q < pi
                        ==> #[trigger] self.queue@[q] == pre.queue@[q]);
                    assert(forall|q: int| pi <= q < self.queue@.len()
                        ==> #[trigger] self.queue@[q] == pre.queue@[q + 1]);
                    assert(!self.in_queue(id as int)) by {
                        if self.in_queue(id as int) {
                            let q = choose|q: int|
                                0 <= q < self.queue@.len()
                                    && #[trigger] self.queue@[q] as int == id;
                            if q < pi {
                                assert(pre.queue@[q] == id);
                            } else {
                                assert(pre.queue@[q + 1] == pre.queue@[pi]);
                            }
                        }
                    }
                    assert forall|x: int| x != id && pre.in_queue(x)
                        implies self.in_queue(x) by {
                        let q = choose|q: int|
                            0 <= q < pre.queue@.len() && #[trigger] pre.queue@[q] as int == x;
                        if q < pi {
                            assert(self.queue@[q] as int == x);
                        } else {
                            assert(self.queue@[q - 1] as int == x);
                        }
                    }
                    assert forall|x: int| x != id && self.in_queue(x)
                        implies pre.in_queue(x) by {
                        let q = choose|q: int|
                            0 <= q < self.queue@.len() && #[trigger] self.queue@[q] as int == x;
                        if q < pi {
                            assert(pre.queue@[q] as int == x);
                        } else {
                            assert(pre.queue@[q + 1] as int == x);
                        }
                    }
                    assert forall|a: int, b: int| 0 <= a < b < self.queue@.len()
                        implies #[trigger] self.queue@[a] != #[trigger] self.queue@[b] by {
                        let a0 = if a < pi { a } else { a + 1 };
                        let b0 = if b < pi { b } else { b + 1 };
                        assert(self.queue@[a] == pre.queue@[a0]);
                        assert(self.queue@[b] == pre.queue@[b0]);
                    }
                }
                return;
            }
            p = p + 1;
        }
    }

    /// The connect attempt behind `id` succeeded: the handle goes live
    /// with a writable sink.
    pub fn mark_live(&mut self, id: usize)
        requires
            old(self).wf(),
            id < old(self).slots@.len(),
            !old(self).in_queue(id as int),
        ensures
            final(self).wf(),
            final(self).queue@ == old(self).queue@,
            final(self).slots@ == old(self).slots@.update(id as int,
                (ConnState {
                    phase: ConnPhase::Live,
                    sink_ready: true,
                    ..old(self).slots@[id as int]
                })),
    {
        let mut st = self.slots.remove(id);
        st.phase = ConnPhase::Live;
        st.sink_ready = true;
        self.slots.insert(id, st);
        proof {
            assert(self.slots@ =~= old(self).slots@.update(id as int,
                (ConnState {
                    phase: ConnPhase::Live,
                    sink_ready: true,
                    ..old(self).slots@[id as int]
                })));
            assert forall|p: int| 0 <= p < self.queue@.len()
                implies (#[trigger] self.slots@[self.queue@[p] as int].phase) is Live
                    && !self.slots@[self.queue@[p] as int].closed by {
                assert(self.queue@[p] as int != id);
            }
        }
    }

    /// The connection behind `id` is over: the slot becomes a tombstone
    /// and leaves the ready queue.
    pub fn mark_gone(&mut self, id: usize)
        requires
            old(self).wf(),
            id < old(self).slots@.len(),
        ensures
            final(self).wf(),
            final(self).slots@ == old(self).slots@.update(id as int,
                (ConnState {
                    phase: ConnPhase::Gone,
                    closed: true,
                    sink_ready: false,
                    ..old(self).slots@[id as int]
                })),
            !final(self).in_queue(id as int),
            forall|x: int| x != id ==> final(self).in_queue(x) == old(self).in_queue(x),
            final(self).queue@.len() <= old(self).queue@.len(),
            !old(self).in_queue(id as int) ==> final(self).queue@ == old(self).queue@,
    {
        self.dequeue(id);
        let ghost mid = *self;
        let mut st = self.slots.remove(id);
        st.phase = ConnPhase::Gone;
        st.closed = true;
        st.sink_ready = false;
        self.slots.insert(id, st);
        proof {
            assert(self.slots@ =~= old(self).slots@.update(id as int,
                (ConnState {
                    phase: ConnPhase::Gone,
                    closed: true,
                    sink_ready: false,
                    ..old(self).slots@[id as int]
                })));
            assert(self.queue@ == mid.queue@);
            assert forall|p: int| 0 <= p < self.queue@.len()
                implies (#[trigger] self.slots@[self.queue@[p] as int].phase) is Live
                    && !self.slots@[self.queue@[p] as int].closed by {
                assert(mid.in_queue(self.queue@[p] as int));
                assert(self.queue@[p] as int != id);
                assert(mid.slots@[self.queue@[p] as int].phase is Live);
            }
            assert forall|x: int| x != id
                implies final(self).in_queue(x) == old(self).in_queue(x) by {
                assert(mid.in_queue(x) == old(self).in_queue(x));
            }
        }
    }

    /// Ask the connection behind `id` to finish: idempotent; the handle
    /// leaves the ready queue and is never re-enqueued.
    pub fn set_closed(&mut self, id: usize)
        requires
            old(self).wf(),
            id < old(self).slots@.len(),
        ensures
            final(self).wf(),
            final(self).slots@ == old(self).slots@.update(id as int,
                (ConnState { closed: true, ..old(self).slots@[id as int] })),
            !final(self).in_queue(id as int),
            forall|x: int| x != id ==> final(self).in_queue(x) == old(self).in_queue(x),
            final(self).queue@.len() <= old(self).queue@.len(),
            !old(self).in_queue(id as int) ==> final(self).queue@ == old(self).queue@,
    {
        self.dequeue(id);
        let ghost mid = *self;
        let mut st = self.slots.remove(id);
        st.closed = true;
        self.slots.insert(id, st);
        proof {
            assert(self.slots@ =~= old(self).slots@.update(id as int,
                (ConnState { closed: true, ..old(self).slots@[id as int] })));
            assert(self.queue@ == mid.queue@);
            assert forall|p: int| 0 <= p < self.queue@.len()
                implies (#[trigger] self.slots@[self.queue@[p] as int].phase) is Live
                    && !self.slots@[self.queue@[p] as int].closed by {
                assert(mid.in_queue(self.queue@[p] as int));
                assert(self.queue@[p] as int != id);
                assert(mid.slots@[self.queue@[p] as int].phase is Live);
            }
            assert forall|x: int| x != id
                implies final(self).in_queue(x) == old(self).in_queue(x) by {
                assert(mid.in_queue(x) == old(self).in_queue(x));
            }
        }
    }

    /// Record whether the sink behind `id` can take an item right now.
    pub fn set_sink_ready(&mut self, id: usize, ready: bool)
        requires
            old(self).wf(),
            id < old(self).slots@.len(),
        ensures
            final(self).wf(),
            final(self).queue@ == old(self).queue@,
            final(self).slots@ == old(self).slots@.update(id as int,
                (ConnState { sink_ready: ready, ..old(self).slots@[id as int] })),
    {
        let mut st = self.slots.remove(id);
        st.sink_ready = ready;
        self.slots.insert(id, st);
        proof {
            assert(self.slots@ =~= old(self).slots@.update(id as int,
                (ConnState { sink_ready: ready, ..old(self).slots@[id as int] })));
            assert forall|p: int| 0 <= p < self.queue@.len()
                implies (#[trigger] self.slots@[self.queue@[p] as int].phase) is Live
                    && !self.slots@[self.queue@[p] as int].closed by {
                assert(old(self).slots@[self.queue@[p] as int].phase is Live);
            }
        }
    }

    /// Deposit the one in-flight item into the handle `id`.
    pub fn put_pending(&mut self, id: usize, item: I)
        requires
            old(self).wf(),
            id < old(self).slots@.len(),
            old(self).slots@[id as int].pending_item is None,
        ensures
            final(self).wf(),
            final(self).queue@ == old(self).queue@,
            final(self).slots@ == old(self).slots@.update(id as int,
                (ConnState { pending_item: Some(item), ..old(self).slots@[id as int] })),
    {
        let mut st = self.slots.remove(id);
        st.pending_item = Some(item);
        self.slots.insert(id, st);
        proof {
            assert(self.slots@ =~= old(self).slots@.update(id as int,
                (ConnState { pending_item: Some(item), ..old(self).slots@[id as int] })));
            assert forall|p: int| 0 <= p < self.queue@.len()
                implies (#[trigger] self.slots@[self.queue@[p] as int].phase) is Live
                    && !self.slots@[self.queue@[p] as int].closed by {
                assert(old(self).slots@[self.queue@[p] as int].phase is Live);
            }
        }
    }

    /// Take the in-flight item back out of the handle `id`, if it is
    /// still there.
    pub fn take_pending(&mut self, id: usize) -> (r: Option<I>)
        requires
            old(self).wf(),
            id < old(self).slots@.len(),
        ensures
            final(self).wf(),
            final(self).queue@ == old(self).queue@,
            r == old(self).slots@[id as int].pending_item,
            final(self).slots@ == old(self).slots@.update(id as int,
                (ConnState { pending_item: None::<I>, ..old(self).slots@[id as int] })),
    {
        let mut st = self.slots.remove(id);
        let r = st.pending_item;
        st.pending_item = None;
        self.slots.insert(id, st);
        proof {
            assert(self.slots@ =~= old(self).slots@.update(id as int,
                (ConnState { pending_item: None::<I>, ..old(self).slots@[id as int] })));
            assert forall|p: int| 0 <= p < self.queue@.len()
                implies (#[trigger] self.slots@[self.queue@[p] as int].phase) is Live
                    && !self.slots@[self.queue@[p] as int].closed by {
                assert(old(self).slots@[self.queue@[p] as int].phase is Live);
            }
        }
        r
    }
}

} // verus!
