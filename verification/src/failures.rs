//! Time-bounded suppression of recently failed addresses.
//!
//! An address that failed to connect is blacklisted until a deadline;
//! while the entry stands, the aligner skips the address. Entries are
//! unique per address, and re-blacklisting refreshes the deadline.

use vstd::prelude::*;

verus! {

/// One suppressed address together with the instant, in milliseconds,
/// at which the suppression ends.
pub struct BlacklistEntry {
    pub addr: u64,
    pub deadline_ms: u64,
}

/// The set of currently suppressed addresses.
pub struct Blacklist {
    pub entries: Vec<BlacklistEntry>,
}

impl Blacklist {
    /// At most one entry per address.
    pub open spec fn wf(&self) -> bool {
        forall|i: int, j: int|
            0 <= i < j < self.entries@.len()
                ==> #[trigger] self.entries@[i].addr != #[trigger] self.entries@[j].addr
    }

    /// Whether `a` currently has an entry.
    pub open spec fn spec_failing(&self, a: u64) -> bool {
        exists|i: int| 0 <= i < self.entries@.len() && #[trigger] self.entries@[i].addr == a
    }

    /// The deadline of the entry for `a`; meaningful only when
    /// `spec_failing(a)` holds.
    pub open spec fn deadline_of(&self, a: u64) -> u64 {
        let i = choose|i: int| 0 <= i < self.entries@.len() && #[trigger] self.entries@[i].addr == a;
        self.entries@[i].deadline_ms
    }

    /// In a well-formed blacklist the entry at `i` is the one entry for
    /// its address, so `deadline_of` speaks of it.
    pub proof fn lemma_addr_index(&self, i: int)
        requires
            self.wf(),
            0 <= i < self.entries@.len(),
        ensures
            self.spec_failing(self.entries@[i].addr),
            self.deadline_of(self.entries@[i].addr) == self.entries@[i].deadline_ms,
    {
        let a = self.entries@[i].addr;
        assert(self.spec_failing(a));
        let j = choose|j: int|
            0 <= j < self.entries@.len() && #[trigger] self.entries@[j].addr == a;
        if j != i {
            assert(false);
        }
    }

    pub fn new() -> (r: Blacklist)
        ensures
            r.wf(),
            r.entries@.len() == 0,
            forall|a: u64| !r.spec_failing(a),
    {
        Blacklist { entries: Vec::new() }
    }

    /// Index of the entry for `a`, if any.
    fn find(&self, a: u64) -> (r: Option<usize>)
        ensures
            match r {
                Some(i) => i < self.entries@.len() && self.entries@[i as int].addr == a,
                None => !self.spec_failing(a),
            },
    {
        let mut i: usize = 0;
        while i < self.entries.len()
            invariant
                i <= self.entries.len(),
                forall|j: int| 0 <= j < i ==> #[trigger] self.entries@[j].addr != a,
            decreases self.entries.len() - i,
        {
            if self.entries[i].addr == a {
                return Some(i);
            }
            i = i + 1;
        }
        None
    }

    /// Whether connect attempts to `a` are currently suppressed.
    pub fn is_failing(&self, a: u64) -> (r: bool)
        ensures
            r == self.spec_failing(a),
    {
        self.find(a).is_some()
    }

    /// Suppress `a` until `deadline_ms`. An address already suppressed has
    /// its deadline refreshed; no second entry appears.
    pub fn blacklist(&mut self, a: u64, deadline_ms: u64)
        requires
            old(self).wf(),
        ensures
            final(self).wf(),
            final(self).spec_failing(a),
            final(self).deadline_of(a) == deadline_ms,
            forall|x: u64| x != a
                ==> final(self).spec_failing(x) == old(self).spec_failing(x),
            forall|x: u64| x != a && old(self).spec_failing(x)
                ==> final(self).deadline_of(x) == old(self).deadline_of(x),
            final(self).entries@.len() <= old(self).entries@.len() + 1,
    {
        let ghost pre = *self;
        match self.find(a) {
            Some(i) => {
                let e = BlacklistEntry { addr: a, deadline_ms };
                self.entries.set(i, e);
                proof {
                    assert(forall|k: int| 0 <= k < self.entries@.len()
                        ==> #[trigger] self.entries@[k].addr == pre.entries@[k].addr);
                    assert(self.wf());
                    self.lemma_addr_index(i as int);
                    assert forall|x: u64| x != a && pre.spec_failing(x)
                        implies self.spec_failing(x)
                            && self.deadline_of(x) == pre.deadline_of(x) by {
                        let j = choose|j: int|
                            0 <= j < pre.entries@.len() && #[trigger] pre.entries@[j].addr == x;
                        pre.lemma_addr_index(j);
                        assert(self.entries@[j].addr == x);
                        self.lemma_addr_index(j);
                    }
                    assert forall|x: u64| x != a && self.spec_failing(x)
                        implies pre.spec_failing(x) by {
                        let j = choose|j: int|
                            0 <= j < self.entries@.len() && #[trigger] self.entries@[j].addr == x;
                        assert(pre.entries@[j].addr == x);
                    }
                }
            }
            None => {
                self.entries.push(BlacklistEntry { addr: a, deadline_ms });
                proof {
                    let n = pre.entries@.len() as int;
                    assert(self.entries@[n].addr == a);
                    assert(self.wf());
                    self.lemma_addr_index(n);
                    assert forall|x: u64| x != a && pre.spec_failing(x)
                        implies self.spec_failing(x)
                            && self.deadline_of(x) == pre.deadline_of(x) by {
                        let j = choose|j: int|
                            0 <= j < pre.entries@.len() && #[trigger] pre.entries@[j].addr == x;
                        pre.lemma_addr_index(j);
                        assert(self.entries@[j].addr == x);
                        self.lemma_addr_index(j);
                    }
                    assert forall|x: u64| x != a && self.spec_failing(x)
                        implies pre.spec_failing(x) by {
                        let j = choose|j: int|
                            0 <= j < self.entries@.len() && #[trigger] self.entries@[j].addr == x;
                        assert(j < n);
                        assert(pre.entries@[j].addr == x);
                    }
                }
            }
        }
    }

    /// Remove and return one address whose suppression has expired at
    /// `now_ms`, if any. Draining to `None` leaves only entries whose
    /// deadline is still in the future.
    pub fn poll_expired(&mut self, now_ms: u64) -> (r: Option<u64>)
        requires
            old(self).wf(),
        ensures
            final(self).wf(),
            match r {
                Some(a) => {
                    &&& old(self).spec_failing(a)
                    &&& old(self).deadline_of(a) <= now_ms
                    &&& !final(self).spec_failing(a)
                    &&& forall|x: u64| x != a
                        ==> final(self).spec_failing(x) == old(self).spec_failing(x)
                    &&& forall|x: u64| x != a && old(self).spec_failing(x)
                        ==> final(self).deadline_of(x) == old(self).deadline_of(x)
                    &&& final(self).entries@.len() == old(self).entries@.len() - 1
                },
                None => {
                    &&& *final(self) == *old(self)
                    &&& forall|i: int| 0 <= i < final(self).entries@.len()
                        ==> #[trigger] final(self).entries@[i].deadline_ms > now_ms
                },
            },
    {
        let ghost pre = *self;
        let mut i: usize = 0;
        while i < self.entries.len()
            invariant
                i <= self.entries.len(),
                *self == pre,
                pre == *old(self),
                pre.wf(),
                forall|j: int| 0 <= j < i ==> #[trigger] self.entries@[j].deadline_ms > now_ms,
            decreases self.entries.len() - i,
        {
            if self.entries[i].deadline_ms <= now_ms {
                let e = self.entries.remove(i);
                proof {
                    let ii = i as int;
                    assert(pre.entries@[ii].addr == e.addr);
                    pre.lemma_addr_index(ii);
                    assert(forall|k: int| 0 <= k < ii
                        ==> #[trigger] self.entries@[k] == pre.entries@[k]);
                    assert(forall|k: int| ii <= k < self.entries@.len()
                        ==> #[trigger] self.entries@[k] == pre.entries@[k + 1]);
                    assert forall|p: int, q: int| 0 <= p < q < self.entries@.len()
                        implies #[trigger] self.entries@[p].addr
                            != #[trigger] self.entries@[q].addr by {
                        let p0 = if p < ii { p } else { p + 1 };
                        let q0 = if q < ii { q } else { q + 1 };
                        assert(self.entries@[p] == pre.entries@[p0]);
                        assert(self.entries@[q] == pre.entries@[q0]);
                        assert(pre.entries@[p0].addr != pre.entries@[q0].addr);
                    }
                    assert(self.wf());
                    assert forall|x: u64| x != e.addr && pre.spec_failing(x)
                        implies self.spec_failing(x)
                            && self.deadline_of(x) == pre.deadline_of(x) by {
                        let j = choose|j: int|
                            0 <= j < pre.entries@.len() && #[trigger] pre.entries@[j].addr == x;
                        pre.lemma_addr_index(j);
                        if j < ii {
                            assert(self.entries@[j].addr == x);
                            self.lemma_addr_index(j);
                        } else {
                            assert(self.entries@[j - 1].addr == x);
                            self.lemma_addr_index(j - 1);
                        }
                    }
                    assert forall|x: u64| x != e.addr && self.spec_failing(x)
                        implies pre.spec_failing(x) by {
                        let j = choose|j: int|
                            0 <= j < self.entries@.len() && #[trigger] self.entries@[j].addr == x;
                        if j < ii {
                            assert(pre.entries@[j].addr == x);
                        } else {
                            assert(pre.entries@[j + 1].addr == x);
                        }
                    }
                    assert(!self.spec_failing(e.addr)) by {
                        if self.spec_failing(e.addr) {
                            let j = choose|j: int|
                                0 <= j < self.entries@.len()
                                    && #[trigger] self.entries@[j].addr == e.addr;
                            if j < ii {
                                assert(pre.entries@[j].addr == e.addr);
                            } else {
                                assert(pre.entries@[j + 1].addr == e.addr);
                            }
                        }
                    }
                }
                return Some(e.addr);
            }
            i = i + 1;
        }
        None
    }

    /// The earliest deadline among the current entries, for registering a
    /// timer wake-up; `None` when the blacklist is empty.
    pub fn next_deadline(&self) -> (r: Option<u64>)
        ensures
            match r {
                Some(d) => {
                    &&& self.entries@.len() > 0
                    &&& exists|i: int| 0 <= i < self.entries@.len()
                        && #[trigger] self.entries@[i].deadline_ms == d
                    &&& forall|i: int| 0 <= i < self.entries@.len()
                        ==> d <= #[trigger] self.entries@[i].deadline_ms
                },
                None => self.entries@.len() == 0,
            },
    {
        if self.entries.len() == 0 {
            return None;
        }
        let mut best: u64 = self.entries[0].deadline_ms;
        let mut i: usize = 1;
        while i < self.entries.len()
            invariant
                1 <= i <= self.entries.len(),
                self.entries@.len() > 0,
                exists|j: int| 0 <= j < i && #[trigger] self.entries@[j].deadline_ms == best,
                forall|j: int| 0 <= j < i ==> best <= #[trigger] self.entries@[j].deadline_ms,
            decreases self.entries.len() - i,
        {
            if self.entries[i].deadline_ms < best {
                best = self.entries[i].deadline_ms;
            }
            i = i + 1;
        }
        Some(best)
    }
}

} // verus!
