//! The planner that decides which host to connect next so that per-host
//! connection counts stay uniform.
//!
//! The aligner maps each address of the current snapshot to the number of
//! currently outstanding (pending plus established) connections to it.
//! `get` chooses, among the addresses under the per-host limit and not
//! blacklisted, one with the smallest outstanding count; ties go to the
//! address that has waited longest, realized by moving a chosen entry to
//! the back of the list.

use vstd::prelude::*;

use crate::failures::Blacklist;
use crate::seqtools::{seq_sum, lemma_sum_push, lemma_sum_remove};
use crate::seqtools::vec_contains;

verus! {

/// One known address with its outstanding-connection count.
pub struct AlignerEntry {
    pub addr: u64,
    pub count: u32,
}

/// The contribution of one entry to the total outstanding count.
pub open spec fn count_fn() -> spec_fn(AlignerEntry) -> nat {
    |e: AlignerEntry| e.count as nat
}

/// The entries of `s` whose address is not in `retired`, in order.
pub open spec fn keep_filter(s: Seq<AlignerEntry>, retired: Seq<u64>) -> Seq<AlignerEntry>
    decreases s.len(),
{
    if s.len() == 0 {
        Seq::empty()
    } else {
        let rest = keep_filter(s.drop_last(), retired);
        if retired.contains(s.last().addr) {
            rest
        } else {
            rest.push(s.last())
        }
    }
}

/// Every kept entry comes from `s` and survives `retired`; every
/// surviving entry of `s` is kept.
pub proof fn lemma_keep_filter_props(s: Seq<AlignerEntry>, retired: Seq<u64>)
    ensures
        forall|j: int| 0 <= j < keep_filter(s, retired).len()
            ==> exists|k: int|
                0 <= k < s.len() && s[k] == #[trigger] keep_filter(s, retired)[j],
        forall|j: int| 0 <= j < keep_filter(s, retired).len()
            ==> !retired.contains(#[trigger] keep_filter(s, retired)[j].addr),
        forall|k: int|
            0 <= k < s.len() && !retired.contains(#[trigger] s[k].addr)
                ==> keep_filter(s, retired).contains(s[k]),
        keep_filter(s, retired).len() <= s.len(),
    decreases s.len(),
{
    if s.len() > 0 {
        lemma_keep_filter_props(s.drop_last(), retired);
        let f = keep_filter(s, retired);
        let rest = keep_filter(s.drop_last(), retired);
        assert forall|j: int| 0 <= j < f.len()
            implies exists|k: int| 0 <= k < s.len() && s[k] == #[trigger] f[j] by {
            if j < rest.len() {
                let k = choose|k: int|
                    0 <= k < s.drop_last().len() && s.drop_last()[k] == rest[j];
                assert(s[k] == f[j]);
            } else {
                assert(f[j] == s[s.len() - 1]);
            }
        }
        assert forall|k: int|
            0 <= k < s.len() && !retired.contains(#[trigger] s[k].addr)
            implies f.contains(s[k]) by {
            if k < s.len() - 1 {
                assert(rest.contains(s.drop_last()[k]));
                let j = choose|j: int| 0 <= j < rest.len() && rest[j] == s[k];
                assert(f[j] == s[k]);
            } else {
                assert(f[f.len() - 1] == s[k]);
            }
        }
    }
}

/// Filtering keeps addresses distinct.
pub proof fn lemma_keep_filter_distinct(s: Seq<AlignerEntry>, retired: Seq<u64>)
    requires
        forall|i: int, j: int|
            0 <= i < j < s.len() ==> #[trigger] s[i].addr != #[trigger] s[j].addr,
    ensures
        forall|i: int, j: int|
            0 <= i < j < keep_filter(s, retired).len()
                ==> #[trigger] keep_filter(s, retired)[i].addr
                    != #[trigger] keep_filter(s, retired)[j].addr,
    decreases s.len(),
{
    if s.len() > 0 {
        lemma_keep_filter_distinct(s.drop_last(), retired);
        lemma_keep_filter_props(s.drop_last(), retired);
        let f = keep_filter(s, retired);
        let rest = keep_filter(s.drop_last(), retired);
        assert forall|i: int, j: int| 0 <= i < j < f.len()
            implies #[trigger] f[i].addr != #[trigger] f[j].addr by {
            if j < rest.len() {
                assert(f[i] == rest[i] && f[j] == rest[j]);
            } else if j == rest.len() && f.len() == rest.len() + 1 {
                assert(f[j] == s[s.len() - 1]);
                assert(f[i] == rest[i]);
                let k = choose|k: int|
                    0 <= k < s.drop_last().len() && s.drop_last()[k] == rest[i];
                assert(s[k].addr != s[s.len() - 1].addr);
            }
        }
    }
}

/// The per-address connection planner.
pub struct Aligner {
    pub entries: Vec<AlignerEntry>,
}

impl Aligner {
    /// At most one entry per address, every count within `limit`.
    pub open spec fn wf(&self, limit: u32) -> bool {
        &&& forall|i: int, j: int|
            0 <= i < j < self.entries@.len()
                ==> #[trigger] self.entries@[i].addr != #[trigger] self.entries@[j].addr
        &&& forall|i: int| 0 <= i < self.entries@.len()
                ==> #[trigger] self.entries@[i].count <= limit
    }

    /// Whether `a` is in the current plan.
    pub open spec fn spec_knows(&self, a: u64) -> bool {
        exists|i: int| 0 <= i < self.entries@.len() && #[trigger] self.entries@[i].addr == a
    }

    /// The outstanding count for `a`; meaningful only when `spec_knows(a)`.
    pub open spec fn count_of(&self, a: u64) -> u32 {
        let i = choose|i: int|
            0 <= i < self.entries@.len() && #[trigger] self.entries@[i].addr == a;
        self.entries@[i].count
    }

    /// Total outstanding count over all known addresses.
    pub open spec fn total(&self) -> nat {
        seq_sum(self.entries@, count_fn())
    }

    /// Whether the entry at `i` qualifies for a new connect attempt.
    pub open spec fn eligible(&self, limit: u32, blist: &Blacklist, i: int) -> bool {
        &&& 0 <= i < self.entries@.len()
        &&& self.entries@[i].count < limit
        &&& !blist.spec_failing(self.entries@[i].addr)
    }

    /// In a plan with distinct addresses the entry at `i` is the one entry
    /// for its address, so `count_of` speaks of it.
    pub proof fn lemma_addr_index(&self, limit: u32, i: int)
        requires
            self.wf(limit),
            0 <= i < self.entries@.len(),
        ensures
            self.spec_knows(self.entries@[i].addr),
            self.count_of(self.entries@[i].addr) == self.entries@[i].count,
    {
        let a = self.entries@[i].addr;
        assert(self.spec_knows(a));
        let j = choose|j: int|
            0 <= j < self.entries@.len() && #[trigger] self.entries@[j].addr == a;
        if j != i {
            assert(false);
        }
    }

    pub fn new() -> (r: Aligner)
        ensures
            r.entries@.len() == 0,
            forall|limit: u32| r.wf(limit),
            forall|a: u64| !r.spec_knows(a),
            r.total() == 0,
    {
        Aligner { entries: Vec::new() }
    }

    /// Reconcile the plan with a snapshot change: drop the retired
    /// addresses and add the added ones with a count of zero.
    pub fn update(&mut self, added: &Vec<u64>, retired: &Vec<u64>)
        requires
            forall|i: int, j: int|
                0 <= i < j < old(self).entries@.len()
                    ==> #[trigger] old(self).entries@[i].addr
                        != #[trigger] old(self).entries@[j].addr,
            forall|i: int, j: int|
                0 <= i < j < added@.len() ==> #[trigger] added@[i] != #[trigger] added@[j],
            forall|a: u64| added@.contains(a) ==> !old(self).spec_knows(a),
            forall|a: u64| added@.contains(a) ==> !retired@.contains(a),
        ensures
            forall|x: u64| final(self).spec_knows(x)
                <==> ((old(self).spec_knows(x) && !retired@.contains(x))
                    || added@.contains(x)),
            forall|x: u64|
                old(self).spec_knows(x) && !retired@.contains(x) && !added@.contains(x)
                    ==> final(self).count_of(x) == old(self).count_of(x),
            forall|x: u64| added@.contains(x) ==> final(self).count_of(x) == 0,
            forall|i: int, j: int|
                0 <= i < j < final(self).entries@.len()
                    ==> #[trigger] final(self).entries@[i].addr
                        != #[trigger] final(self).entries@[j].addr,
            forall|limit: u32| old(self).wf(limit) ==> final(self).wf(limit),
    {
        self.drop_retired(retired);
        self.add_fresh(added);
    }

    /// Drop every entry whose address is retired; all else is kept, in
    /// order.
    fn drop_retired(&mut self, retired: &Vec<u64>)
        requires
            forall|i: int, j: int|
                0 <= i < j < old(self).entries@.len()
                    ==> #[trigger] old(self).entries@[i].addr
                        != #[trigger] old(self).entries@[j].addr,
        ensures
            forall|x: u64| final(self).spec_knows(x)
                <==> (old(self).spec_knows(x) && !retired@.contains(x)),
            forall|x: u64| final(self).spec_knows(x)
                ==> final(self).count_of(x) == old(self).count_of(x),
            forall|i: int, j: int|
                0 <= i < j < final(self).entries@.len()
                    ==> #[trigger] final(self).entries@[i].addr
                        != #[trigger] final(self).entries@[j].addr,
            forall|limit: u32| old(self).wf(limit) ==> final(self).wf(limit),
    {
        let ghost pre = *self;
        let mut kept: Vec<AlignerEntry> = Vec::new();
        let mut i: usize = 0;
        while i < self.entries.len()
            invariant
                i <= self.entries.len(),
                *self == pre,
                kept@ == keep_filter(pre.entries@.take(i as int), retired@),
            decreases self.entries.len() - i,
        {
            let e = AlignerEntry { addr: self.entries[i].addr, count: self.entries[i].count };
            proof {
                let s1 = pre.entries@.take(i as int + 1);
                assert(s1.drop_last() =~= pre.entries@.take(i as int));
                assert(s1.last() == pre.entries@[i as int]);
            }
            if !vec_contains(retired, e.addr) {
                kept.push(e);
            }
            i = i + 1;
        }
        proof {
            assert(pre.entries@.take(pre.entries@.len() as int) =~= pre.entries@);
        }
        self.entries = kept;
        proof {
            lemma_keep_filter_props(pre.entries@, retired@);
            lemma_keep_filter_distinct(pre.entries@, retired@);
            let mid = *self;
            assert forall|x: u64| mid.spec_knows(x)
                implies pre.spec_knows(x) && !retired@.contains(x)
                    && mid.count_of(x) == pre.count_of(x) by {
                let j = choose|j: int|
                    0 <= j < mid.entries@.len() && #[trigger] mid.entries@[j].addr == x;
                let k = choose|k: int|
                    0 <= k < pre.entries@.len() && pre.entries@[k] == mid.entries@[j];
                assert(pre.entries@[k].addr == x);
                pre.lemma_addr_index(u32::MAX, k);
                mid.lemma_addr_index(u32::MAX, j);
            }
            assert forall|x: u64| pre.spec_knows(x) && !retired@.contains(x)
                implies mid.spec_knows(x) by {
                let k = choose|k: int|
                    0 <= k < pre.entries@.len() && #[trigger] pre.entries@[k].addr == x;
                assert(mid.entries@.contains(pre.entries@[k]));
                let j = choose|j: int|
                    0 <= j < mid.entries@.len() && mid.entries@[j] == pre.entries@[k];
                assert(mid.entries@[j].addr == x);
            }
            assert forall|limit: u32| pre.wf(limit) implies mid.wf(limit) by {
                assert forall|j: int| 0 <= j < mid.entries@.len()
                    implies #[trigger] mid.entries@[j].count <= limit by {
                    let k = choose|k: int|
                        0 <= k < pre.entries@.len() && pre.entries@[k] == mid.entries@[j];
                    assert(pre.entries@[k].count <= limit);
                }
            }
        }
    }

    /// Add each given address to the plan with a count of zero.
    fn add_fresh(&mut self, added: &Vec<u64>)
        requires
            forall|i: int, j: int|
                0 <= i < j < old(self).entries@.len()
                    ==> #[trigger] old(self).entries@[i].addr
                        != #[trigger] old(self).entries@[j].addr,
            forall|i: int, j: int|
                0 <= i < j < added@.len() ==> #[trigger] added@[i] != #[trigger] added@[j],
            forall|a: u64| added@.contains(a) ==> !old(self).spec_knows(a),
        ensures
            forall|x: u64| final(self).spec_knows(x)
                <==> (old(self).spec_knows(x) || added@.contains(x)),
            forall|x: u64| old(self).spec_knows(x)
                ==> final(self).count_of(x) == old(self).count_of(x),
            forall|x: u64| added@.contains(x) && !old(self).spec_knows(x)
                ==> final(self).count_of(x) == 0,
            forall|i: int, j: int|
                0 <= i < j < final(self).entries@.len()
                    ==> #[trigger] final(self).entries@[i].addr
                        != #[trigger] final(self).entries@[j].addr,
            forall|limit: u32| old(self).wf(limit) ==> final(self).wf(limit),
    {
        let ghost mid = *self;
        let mut t: usize = 0;
        while t < added.len()
            invariant
                t <= added.len(),
                mid == *old(self),
                forall|p: int, q: int|
                    0 <= p < q < added@.len() ==> #[trigger] added@[p] != #[trigger] added@[q],
                forall|a: u64| added@.contains(a) ==> !mid.spec_knows(a),
                forall|p: int, q: int|
                    0 <= p < q < mid.entries@.len()
                        ==> #[trigger] mid.entries@[p].addr != #[trigger] mid.entries@[q].addr,
                self.entries@.len() == mid.entries@.len() + t,
                forall|j: int| 0 <= j < mid.entries@.len()
                    ==> #[trigger] self.entries@[j] == mid.entries@[j],
                forall|j: int| mid.entries@.len() <= j < self.entries@.len()
                    ==> #[trigger] self.entries@[j].addr == added@[j - mid.entries@.len()]
                        && self.entries@[j].count == 0,
            decreases added.len() - t,
        {
            let a = added[t];
            proof {
                assert(added@[t as int] == a);
                assert(added@.contains(a));
            }
            self.entries.push(AlignerEntry { addr: a, count: 0 });
            proof {
                assert(self.entries@[self.entries@.len() - 1].addr == added@[t as int]);
                assert(self.entries@[self.entries@.len() - 1].count == 0);
            }
            t = t + 1;
        }
        proof {
            let fin = *self;
            assert forall|j: int| mid.entries@.len() <= j < fin.entries@.len()
                implies #[trigger] fin.entries@[j].count == 0 by {
                assert(self.entries@[j].addr == added@[j - mid.entries@.len()]);
                assert(self.entries@[j].count == 0);
            }
            assert forall|p: int, q: int| 0 <= p < q < fin.entries@.len()
                implies #[trigger] fin.entries@[p].addr != #[trigger] fin.entries@[q].addr by {
                let m = mid.entries@.len() as int;
                if q < m {
                } else if p < m {
                    assert(fin.entries@[q].addr == added@[q - m]);
                    if fin.entries@[p].addr == fin.entries@[q].addr {
                        assert(mid.entries@[p].addr == added@[q - m]);
                        assert(mid.spec_knows(added@[q - m]));
                        assert(added@.contains(added@[q - m]));
                    }
                } else {
                    assert(fin.entries@[p].addr == added@[p - m]);
                    assert(fin.entries@[q].addr == added@[q - m]);
                }
            }
            assert forall|x: u64| fin.spec_knows(x)
                implies (mid.spec_knows(x) || added@.contains(x)) by {
                let j = choose|j: int|
                    0 <= j < fin.entries@.len() && #[trigger] fin.entries@[j].addr == x;
                if j < mid.entries@.len() {
                    assert(mid.entries@[j].addr == x);
                } else {
                    assert(added@[j - mid.entries@.len()] == x);
                    assert(added@.contains(x));
                }
            }
            assert forall|x: u64| (mid.spec_knows(x) || added@.contains(x))
                implies fin.spec_knows(x) by {
                if mid.spec_knows(x) {
                    let j = choose|j: int|
                        0 <= j < mid.entries@.len() && #[trigger] mid.entries@[j].addr == x;
                    assert(fin.entries@[j].addr == x);
                } else {
                    let k = choose|k: int| 0 <= k < added@.len() && added@[k] == x;
                    assert(fin.entries@[mid.entries@.len() + k].addr == x);
                }
            }
            assert forall|x: u64| mid.spec_knows(x)
                implies fin.count_of(x) == mid.count_of(x) by {
                let j = choose|j: int|
                    0 <= j < mid.entries@.len() && #[trigger] mid.entries@[j].addr == x;
                assert(fin.entries@[j] == mid.entries@[j]);
                fin.lemma_addr_index(u32::MAX, j);
                mid.lemma_addr_index(u32::MAX, j);
            }
            assert forall|x: u64| added@.contains(x) && !mid.spec_knows(x)
                implies fin.count_of(x) == 0 by {
                let k = choose|k: int| 0 <= k < added@.len() && added@[k] == x;
                assert(fin.entries@[mid.entries@.len() + k].addr == x);
                fin.lemma_addr_index(u32::MAX, mid.entries@.len() + k);
            }
            assert forall|limit: u32| mid.wf(limit) implies fin.wf(limit) by {
                assert forall|j: int| 0 <= j < fin.entries@.len()
                    implies #[trigger] fin.entries@[j].count <= limit by {
                    if j >= mid.entries@.len() {
                        assert(fin.entries@[j].count == 0);
                    }
                }
            }
        }
    }

    /// A connection to `a` has ended or failed: release its slot in the
    /// plan. An address no longer known, or one with no outstanding
    /// connections charged, is left as is.
    pub fn put(&mut self, a: u64)
        requires
            forall|i: int, j: int|
                0 <= i < j < old(self).entries@.len()
                    ==> #[trigger] old(self).entries@[i].addr
                        != #[trigger] old(self).entries@[j].addr,
        ensures
            forall|x: u64| final(self).spec_knows(x) == old(self).spec_knows(x),
            final(self).entries@.len() == old(self).entries@.len(),
            old(self).spec_knows(a) && old(self).count_of(a) > 0 ==> {
                &&& final(self).count_of(a) == old(self).count_of(a) - 1
                &&& final(self).total() == old(self).total() - 1
            },
            !(old(self).spec_knows(a) && old(self).count_of(a) > 0)
                ==> *final(self) == *old(self),
            forall|x: u64| x != a && old(self).spec_knows(x)
                ==> final(self).count_of(x) == old(self).count_of(x),
            old(self).total() <= final(self).total() + 1,
            forall|limit: u32| old(self).wf(limit) ==> final(self).wf(limit),
    {
        let ghost pre = *self;
        let mut i: usize = 0;
        while i < self.entries.len()
            invariant
                i <= self.entries.len(),
                *self == pre,
                pre == *old(self),
                forall|p: int, q: int|
                    0 <= p < q < pre.entries@.len()
                        ==> #[trigger] pre.entries@[p].addr != #[trigger] pre.entries@[q].addr,
                forall|j: int| 0 <= j < i ==> #[trigger] self.entries@[j].addr != a,
            decreases self.entries.len() - i,
        {
            if self.entries[i].addr == a {
                proof {
                    pre.lemma_addr_index(u32::MAX, i as int);
                }
                let c = self.entries[i].count;
                if c > 0 {
                    let e = AlignerEntry { addr: a, count: c - 1 };
                    self.entries.set(i, e);
                    proof {
                        let ii = i as int;
                        assert(self.entries@ =~= pre.entries@.update(ii, e));
                        crate::seqtools::lemma_sum_update(pre.entries@, count_fn(), ii, e);
                        assert(forall|k: int| 0 <= k < self.entries@.len()
                            ==> #[trigger] self.entries@[k].addr == pre.entries@[k].addr);
                        assert forall|x: u64| pre.spec_knows(x)
                            implies self.spec_knows(x) by {
                            let j = choose|j: int|
                                0 <= j < pre.entries@.len()
                                    && #[trigger] pre.entries@[j].addr == x;
                            assert(self.entries@[j].addr == x);
                        }
                        assert forall|x: u64| self.spec_knows(x)
                            implies pre.spec_knows(x) by {
                            let j = choose|j: int|
                                0 <= j < self.entries@.len()
                                    && #[trigger] self.entries@[j].addr == x;
                            assert(pre.entries@[j].addr == x);
                        }
                        self.lemma_addr_index(u32::MAX, ii);
                        assert forall|x: u64| x != a && pre.spec_knows(x)
                            implies self.count_of(x) == pre.count_of(x) by {
                            let j = choose|j: int|
                                0 <= j < pre.entries@.len()
                                    && #[trigger] pre.entries@[j].addr == x;
                            pre.lemma_addr_index(u32::MAX, j);
                            assert(self.entries@[j].addr == x);
                            self.lemma_addr_index(u32::MAX, j);
                        }
                    }
                }
                return;
            }
            i = i + 1;
        }
    }

    /// Choose the next address to connect: among the known addresses whose
    /// outstanding count is under `limit` and which the blacklist does not
    /// suppress, the first with the smallest count; its count is charged
    /// and its entry moves to the back, so that repeated calls distribute
    /// connections evenly. `None` when no address qualifies.
    pub fn get(&mut self, limit: u32, blist: &Blacklist) -> (r: Option<u64>)
        requires
            old(self).wf(limit),
        ensures
            final(self).wf(limit),
            final(self).entries@.len() == old(self).entries@.len(),
            match r {
                None => {
                    &&& *final(self) == *old(self)
                    &&& forall|i: int| !old(self).eligible(limit, blist, i)
                },
                Some(a) => {
                    &&& old(self).spec_knows(a)
                    &&& old(self).count_of(a) < limit
                    &&& !blist.spec_failing(a)
                    &&& forall|i: int| old(self).eligible(limit, blist, i)
                        ==> old(self).count_of(a) <= #[trigger] old(self).entries@[i].count
                    &&& final(self).spec_knows(a)
                    &&& final(self).count_of(a) == old(self).count_of(a) + 1
                    &&& forall|x: u64| x != a
                        ==> final(self).spec_knows(x) == old(self).spec_knows(x)
                    &&& forall|x: u64| x != a && old(self).spec_knows(x)
                        ==> final(self).count_of(x) == old(self).count_of(x)
                    &&& final(self).total() == old(self).total() + 1
                },
            },
    {
        let ghost pre = *self;
        let mut best: usize = 0;
        let mut found: bool = false;
        let mut i: usize = 0;
        while i < self.entries.len()
            invariant
                i <= self.entries.len(),
                *self == pre,
                pre == *old(self),
                pre.wf(limit),
                !found ==> forall|j: int| 0 <= j < i ==> !pre.eligible(limit, blist, j),
                found ==> best < i && pre.eligible(limit, blist, best as int),
                found ==> forall|j: int| 0 <= j < i && pre.eligible(limit, blist, j)
                    ==> pre.entries@[best as int].count <= #[trigger] pre.entries@[j].count,
            decreases self.entries.len() - i,
        {
            let c = self.entries[i].count;
            if c < limit && !blist.is_failing(self.entries[i].addr) {
                if !found {
                    found = true;
                    best = i;
                } else if c < self.entries[best].count {
                    best = i;
                }
            }
            i = i + 1;
        }
        if !found {
            return None;
        }
        let b = best;
        let e = self.entries.remove(b);
        let bumped = AlignerEntry { addr: e.addr, count: e.count + 1 };
        self.entries.push(bumped);
        proof {
            let bi = b as int;
            let n = pre.entries@.len() as int;
            pre.lemma_addr_index(limit, bi);
            assert(self.entries@ =~= pre.entries@.remove(bi).push(bumped));
            lemma_sum_remove(pre.entries@, count_fn(), bi);
            lemma_sum_push(pre.entries@.remove(bi), count_fn(), bumped);
            assert(forall|k: int| 0 <= k < bi
                ==> #[trigger] self.entries@[k] == pre.entries@[k]);
            assert(forall|k: int| bi <= k < n - 1
                ==> #[trigger] self.entries@[k] == pre.entries@[k + 1]);
            assert(self.entries@[n - 1] == bumped);
            assert forall|p: int, q: int| 0 <= p < q < self.entries@.len()
                implies #[trigger] self.entries@[p].addr
                    != #[trigger] self.entries@[q].addr by {
                let p0 = if p < bi { p } else if p < n - 1 { p + 1 } else { bi };
                let q0 = if q < bi { q } else if q < n - 1 { q + 1 } else { bi };
                assert(self.entries@[p].addr == pre.entries@[p0].addr);
                assert(self.entries@[q].addr == pre.entries@[q0].addr);
            }
            assert(self.wf(limit));
            self.lemma_addr_index(limit, n - 1);
            assert forall|x: u64| x != e.addr && pre.spec_knows(x)
                implies self.spec_knows(x) && self.count_of(x) == pre.count_of(x) by {
                let j = choose|j: int|
                    0 <= j < pre.entries@.len() && #[trigger] pre.entries@[j].addr == x;
                pre.lemma_addr_index(limit, j);
                if j < bi {
                    assert(self.entries@[j].addr == x);
                    self.lemma_addr_index(limit, j);
                } else {
                    assert(self.entries@[j - 1].addr == x);
                    self.lemma_addr_index(limit, j - 1);
                }
            }
            assert forall|x: u64| x != e.addr && self.spec_knows(x)
                implies pre.spec_knows(x) by {
                let j = choose|j: int|
                    0 <= j < self.entries@.len() && #[trigger] self.entries@[j].addr == x;
                if j < bi {
                    assert(pre.entries@[j].addr == x);
                } else if j < n - 1 {
                    assert(pre.entries@[j + 1].addr == x);
                } else {
                    assert(false);
                }
            }
        }
        Some(e.addr)
    }
}

} // verus!
