//! The pool's global laws, each proved from the component invariants
//! and contracts.

use vstd::prelude::*;

use crate::aligner::{count_fn, Aligner};
use crate::failures::Blacklist;
use crate::pool::{p_live, p_out, p_pend, Lazy};
use crate::registry::ConnState;
use crate::seqtools::{lemma_sum_saturated, seq_count};

verus! {

/// Every handle in the ready queue is live, was not asked to close, and
/// sits in the queue exactly once: a queued controller is never closed.
pub proof fn lemma_queued_not_closed<I>(pool: &Lazy<I>)
    requires
        pool.inv(),
    ensures
        forall|p: int| 0 <= p < pool.connections.queue@.len()
            ==> (#[trigger] pool.connections.slots@[
                    pool.connections.queue@[p] as int].phase) is Live
                && !pool.connections.slots@[pool.connections.queue@[p] as int].closed,
        forall|p: int, q: int|
            0 <= p < q < pool.connections.queue@.len()
                ==> #[trigger] pool.connections.queue@[p]
                    != #[trigger] pool.connections.queue@[q],
{
}

/// The full handle set splits exactly into the pending connects and the
/// live connections: no handle is counted twice and none is lost.
pub proof fn lemma_outstanding_partition<I>(s: Seq<ConnState<I>>)
    ensures
        seq_count(s, p_out::<I>()) == seq_count(s, p_pend::<I>()) + seq_count(s, p_live::<I>()),
    decreases s.len(),
{
    if s.len() > 0 {
        lemma_outstanding_partition::<I>(s.drop_last());
    }
}

/// The pool-wide form of the partition law: outstanding work equals
/// pending connects plus live connections.
pub proof fn lemma_out_count_partition<I>(pool: &Lazy<I>)
    ensures
        pool.out_count() == pool.pend_count() + pool.live_count(),
{
    lemma_outstanding_partition::<I>(pool.connections.slots@);
}

/// No host is ever charged with more outstanding connections than the
/// per-host limit.
pub proof fn lemma_outstanding_bounded<I>(pool: &Lazy<I>)
    requires
        pool.inv(),
    ensures
        forall|i: int| 0 <= i < pool.aligner.entries@.len()
            ==> #[trigger] pool.aligner.entries@[i].count <= pool.conn_limit,
        forall|a: u64| pool.aligner.spec_knows(a)
            ==> pool.aligner.count_of(a) <= pool.conn_limit,
{
    assert forall|a: u64| pool.aligner.spec_knows(a)
        implies pool.aligner.count_of(a) <= pool.conn_limit by {
        let i = choose|i: int|
            0 <= i < pool.aligner.entries@.len()
                && #[trigger] pool.aligner.entries@[i].addr == a;
        pool.aligner.lemma_addr_index(pool.conn_limit, i);
    }
}

/// Blacklist entries are unique per address, and a suppressed address is
/// never eligible for a new connect attempt while its entry stands.
pub proof fn lemma_blacklist_gates<I>(pool: &Lazy<I>, a: u64)
    requires
        pool.inv(),
        pool.blist.spec_failing(a),
    ensures
        forall|i: int, j: int|
            0 <= i < j < pool.blist.entries@.len()
                ==> #[trigger] pool.blist.entries@[i].addr
                    != #[trigger] pool.blist.entries@[j].addr,
        forall|i: int| 0 <= i < pool.aligner.entries@.len()
            && #[trigger] pool.aligner.entries@[i].addr == a
            ==> !pool.aligner.eligible(pool.conn_limit, &pool.blist, i),
{
}

/// Uniformity: when the plan's total outstanding count reaches the
/// capacity of a host set — `conn_limit` connections for each of the
/// hosts — every host holds exactly `conn_limit`, so no host is starved
/// while another is over-provisioned.
pub proof fn lemma_uniform(al: &Aligner, limit: u32)
    requires
        al.wf(limit),
        al.total() == al.entries@.len() * limit,
    ensures
        forall|i: int| 0 <= i < al.entries@.len()
            ==> #[trigger] al.entries@[i].count == limit,
{
    let s = al.entries@;
    assert forall|i: int| 0 <= i < s.len()
        implies count_fn()(#[trigger] s[i]) <= limit as nat by {
        assert(s[i].count <= limit);
    }
    lemma_sum_saturated(s, count_fn(), limit as nat);
    assert forall|i: int| 0 <= i < s.len()
        implies #[trigger] s[i].count == limit by {
        assert(count_fn()(s[i]) == limit as nat);
    }
}

/// One round-robin step: the front of the ready queue moves to the back.
pub open spec fn rotate1(q: Seq<usize>) -> Seq<usize> {
    q.skip(1).push(q[0])
}

/// `n` round-robin steps.
pub open spec fn rotate_n(q: Seq<usize>, n: nat) -> Seq<usize>
    decreases n,
{
    if n == 0 {
        q
    } else {
        rotate1(rotate_n(q, (n - 1) as nat))
    }
}

/// Round-robin: one accepted dispatch pops the queue's front and the
/// helper re-enqueues the handle at the back (see `Connections::next`
/// and `Connections::add`), which is one `rotate1` step. After `n` such
/// dispatches the queue is the starting queue rotated by `n`, so the
/// connection dispatched at step `n` is the starting queue's element
/// `n`: each ready connection is visited once before any is revisited.
pub proof fn lemma_round_robin(q: Seq<usize>, n: nat)
    requires
        n <= q.len(),
    ensures
        rotate_n(q, n) =~= q.skip(n as int) + q.take(n as int),
        n < q.len() ==> rotate_n(q, n)[0] == q[n as int],
    decreases n,
{
    if n == 0 {
        assert(rotate_n(q, 0) =~= q.skip(0) + q.take(0));
    } else {
        lemma_round_robin(q, (n - 1) as nat);
        let prev = rotate_n(q, (n - 1) as nat);
        assert(prev =~= q.skip(n as int - 1) + q.take(n as int - 1));
        assert(prev.len() == q.len());
        if q.len() > 0 {
            assert(prev[0] == q[n as int - 1]);
            assert(rotate_n(q, n) == rotate1(prev));
            assert(rotate1(prev) =~= q.skip(n as int) + q.take(n as int));
        } else {
            assert(n <= 0);
        }
    }
}

/// The jittered backoff window: a suppressed address stays out of the
/// plan, and the deadline that lets it back in was set between half and
/// one-and-a-half reconnect timeouts after the failure; both bounds are
/// stated on the failure transition itself.
pub proof fn lemma_backoff_window<I>(pool: &Lazy<I>, a: u64, now_ms: u64)
    requires
        pool.inv(),
        pool.blist.spec_failing(a),
        now_ms < pool.blist.deadline_of(a),
    ensures
        forall|i: int| 0 <= i < pool.aligner.entries@.len()
            && #[trigger] pool.aligner.entries@[i].addr == a
            ==> !pool.aligner.eligible(pool.conn_limit, &pool.blist, i),
        forall|j: int| 0 <= j < pool.blist.entries@.len()
            && #[trigger] pool.blist.entries@[j].addr == a
            ==> pool.blist.entries@[j].deadline_ms > now_ms,
{
    assert forall|j: int| 0 <= j < pool.blist.entries@.len()
        && #[trigger] pool.blist.entries@[j].addr == a
        implies pool.blist.entries@[j].deadline_ms > now_ms by {
        pool.blist.lemma_addr_index(j);
    }
}

} // verus!
