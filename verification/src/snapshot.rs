//! An immutable snapshot of the addresses currently resolved for a
//! logical service: an ordered set of host endpoints, each a plain
//! numeric address id.

use vstd::prelude::*;

verus! {

/// An ordered set of host addresses. The order is the deterministic
/// iteration order the pool derives from the snapshot; no address occurs
/// twice.
pub struct AddressSnapshot {
    pub addrs: Vec<u64>,
}

/// The addresses of `from` that `excl` does not list, in the order of
/// `from`.
fn diff_addrs(from: &Vec<u64>, excl: &AddressSnapshot) -> (r: Vec<u64>)
    requires
        forall|i: int, j: int|
            0 <= i < j < from@.len() ==> #[trigger] from@[i] != #[trigger] from@[j],
    ensures
        forall|a: u64| r@.contains(a) <==> (from@.contains(a) && !excl@.contains(a)),
        forall|i: int, j: int|
            0 <= i < j < r@.len() ==> #[trigger] r@[i] != #[trigger] r@[j],
{
    let mut out: Vec<u64> = Vec::new();
    let mut i: usize = 0;
    while i < from.len()
        invariant
            i <= from@.len(),
            forall|p: int, q: int|
                0 <= p < q < from@.len() ==> #[trigger] from@[p] != #[trigger] from@[q],
            forall|j: int| 0 <= j < out@.len()
                ==> exists|k: int| 0 <= k < i && from@[k] == #[trigger] out@[j],
            forall|j: int| 0 <= j < out@.len() ==> !excl@.contains(#[trigger] out@[j]),
            forall|k: int|
                0 <= k < i && !excl@.contains(#[trigger] from@[k]) ==> out@.contains(from@[k]),
            forall|p: int, q: int|
                0 <= p < q < out@.len() ==> #[trigger] out@[p] != #[trigger] out@[q],
        decreases from@.len() - i,
    {
        let a = from[i];
        if !excl.contains_addr(a) {
            let ghost old_out = out@;
            proof {
                assert forall|j: int| 0 <= j < old_out.len()
                    implies old_out[j] != a by {
                    let k = choose|k: int| 0 <= k < i && from@[k] == old_out[j];
                    assert(from@[k] != from@[i as int]);
                }
            }
            out.push(a);
            proof {
                assert(out@[out@.len() - 1] == from@[i as int]);
                assert forall|k: int|
                    0 <= k < i + 1 && !excl@.contains(#[trigger] from@[k])
                    implies out@.contains(from@[k]) by {
                    if k < i {
                        let j = choose|j: int| 0 <= j < old_out.len() && old_out[j] == from@[k];
                        assert(out@[j] == from@[k]);
                    } else {
                        assert(out@[out@.len() - 1] == from@[k]);
                    }
                }
            }
        }
        i = i + 1;
    }
    proof {
        assert forall|a: u64| out@.contains(a)
            implies from@.contains(a) && !excl@.contains(a) by {
            let j = choose|j: int| 0 <= j < out@.len() && out@[j] == a;
            let k = choose|k: int| 0 <= k < from@.len() && from@[k] == out@[j];
            assert(from@[k] == a);
        }
        assert forall|a: u64| from@.contains(a) && !excl@.contains(a)
            implies out@.contains(a) by {
            let k = choose|k: int| 0 <= k < from@.len() && from@[k] == a;
            assert(out@.contains(from@[k]));
        }
    }
    out
}

impl View for AddressSnapshot {
    type V = Seq<u64>;

    open spec fn view(&self) -> Seq<u64> {
        self.addrs@
    }
}

impl AddressSnapshot {
    /// No address occurs twice.
    pub open spec fn wf(&self) -> bool {
        forall|i: int, j: int|
            0 <= i < j < self@.len() ==> #[trigger] self@[i] != #[trigger] self@[j]
    }

    pub fn empty() -> (r: AddressSnapshot)
        ensures
            r.wf(),
            r@ =~= Seq::<u64>::empty(),
    {
        AddressSnapshot { addrs: Vec::new() }
    }

    pub fn contains_addr(&self, a: u64) -> (r: bool)
        ensures
            r == self@.contains(a),
    {
        let mut i: usize = 0;
        while i < self.addrs.len()
            invariant
                i <= self.addrs.len(),
                forall|j: int| 0 <= j < i ==> self@[j] != a,
            decreases self.addrs.len() - i,
        {
            if self.addrs[i] == a {
                return true;
            }
            i = i + 1;
        }
        false
    }

    /// Add an address at the end; an address already present is kept as is.
    pub fn insert(&mut self, a: u64)
        requires
            old(self).wf(),
        ensures
            final(self).wf(),
            old(self)@.contains(a) ==> final(self)@ == old(self)@,
            !old(self)@.contains(a) ==> final(self)@ == old(self)@.push(a),
    {
        if !self.contains_addr(a) {
            self.addrs.push(a);
        }
    }

    /// Whether the two snapshots list the same addresses in the same order.
    pub fn same_as(&self, other: &AddressSnapshot) -> (r: bool)
        ensures
            r <==> self@ == other@,
    {
        if self.addrs.len() != other.addrs.len() {
            return false;
        }
        let mut i: usize = 0;
        while i < self.addrs.len()
            invariant
                i <= self.addrs.len(),
                self.addrs.len() == other.addrs.len(),
                forall|j: int| 0 <= j < i ==> self@[j] == other@[j],
            decreases self.addrs.len() - i,
        {
            if self.addrs[i] != other.addrs[i] {
                return false;
            }
            i = i + 1;
        }
        proof {
            assert(self@ =~= other@);
        }
        true
    }

    /// Compare this snapshot (the current one) with its replacement and
    /// yield the two disjoint difference sets: the addresses to be retired
    /// and the addresses newly added.
    pub fn compare(&self, newer: &AddressSnapshot) -> (r: (Vec<u64>, Vec<u64>))
        requires
            self.wf(),
            newer.wf(),
        ensures
            forall|a: u64| r.0@.contains(a) <==> (self@.contains(a) && !newer@.contains(a)),
            forall|a: u64| r.1@.contains(a) <==> (newer@.contains(a) && !self@.contains(a)),
            forall|i: int, j: int|
                0 <= i < j < r.0@.len() ==> #[trigger] r.0@[i] != #[trigger] r.0@[j],
            forall|i: int, j: int|
                0 <= i < j < r.1@.len() ==> #[trigger] r.1@[i] != #[trigger] r.1@[j],
    {
        proof {
            assert forall|i: int, j: int| 0 <= i < j < self.addrs@.len()
                implies #[trigger] self.addrs@[i] != #[trigger] self.addrs@[j] by {
                assert(self@[i] != self@[j]);
            }
            assert forall|i: int, j: int| 0 <= i < j < newer.addrs@.len()
                implies #[trigger] newer.addrs@[i] != #[trigger] newer.addrs@[j] by {
                assert(newer@[i] != newer@[j]);
            }
        }
        let retired = diff_addrs(&self.addrs, newer);
        let added = diff_addrs(&newer.addrs, self);
        (retired, added)
    }
}

} // verus!
