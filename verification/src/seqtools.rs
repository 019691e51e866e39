//! Counting and summing over sequences, with the induction lemmas the
//! pool's invariants and termination measures rest on.

use vstd::prelude::*;

verus! {

/// Number of elements of `s` that satisfy `p`.
pub open spec fn seq_count<T>(s: Seq<T>, p: spec_fn(T) -> bool) -> nat
    decreases s.len(),
{
    if s.len() == 0 {
        0
    } else {
        seq_count(s.drop_last(), p) + (if p(s.last()) { 1nat } else { 0nat })
    }
}

/// Sum of `f` over the elements of `s`.
pub open spec fn seq_sum<T>(s: Seq<T>, f: spec_fn(T) -> nat) -> nat
    decreases s.len(),
{
    if s.len() == 0 {
        0
    } else {
        seq_sum(s.drop_last(), f) + f(s.last())
    }
}

pub proof fn lemma_count_push<T>(s: Seq<T>, p: spec_fn(T) -> bool, x: T)
    ensures
        seq_count(s.push(x), p) == seq_count(s, p) + (if p(x) { 1nat } else { 0nat }),
{
    assert(s.push(x).drop_last() =~= s);
}

pub proof fn lemma_count_update<T>(s: Seq<T>, p: spec_fn(T) -> bool, i: int, x: T)
    requires
        0 <= i < s.len(),
    ensures
        seq_count(s.update(i, x), p) == seq_count(s, p)
            - (if p(s[i]) { 1nat } else { 0nat }) + (if p(x) { 1nat } else { 0nat }),
    decreases s.len(),
{
    if i == s.len() - 1 {
        assert(s.update(i, x).drop_last() =~= s.drop_last());
    } else {
        assert(s.update(i, x).drop_last() =~= s.drop_last().update(i, x));
        lemma_count_update(s.drop_last(), p, i, x);
    }
}

pub proof fn lemma_sum_push<T>(s: Seq<T>, f: spec_fn(T) -> nat, x: T)
    ensures
        seq_sum(s.push(x), f) == seq_sum(s, f) + f(x),
{
    assert(s.push(x).drop_last() =~= s);
}

pub proof fn lemma_sum_update<T>(s: Seq<T>, f: spec_fn(T) -> nat, i: int, x: T)
    requires
        0 <= i < s.len(),
    ensures
        seq_sum(s.update(i, x), f) == seq_sum(s, f) - f(s[i]) + f(x),
    decreases s.len(),
{
    if i == s.len() - 1 {
        assert(s.update(i, x).drop_last() =~= s.drop_last());
    } else {
        assert(s.update(i, x).drop_last() =~= s.drop_last().update(i, x));
        lemma_sum_update(s.drop_last(), f, i, x);
    }
}

pub proof fn lemma_sum_remove<T>(s: Seq<T>, f: spec_fn(T) -> nat, i: int)
    requires
        0 <= i < s.len(),
    ensures
        seq_sum(s.remove(i), f) == seq_sum(s, f) - f(s[i]),
    decreases s.len(),
{
    if i == s.len() - 1 {
        assert(s.remove(i) =~= s.drop_last());
    } else {
        assert(s.remove(i).drop_last() =~= s.drop_last().remove(i));
        assert(s.remove(i).last() == s.last());
        lemma_sum_remove(s.drop_last(), f, i);
    }
}

/// If every element's contribution is at most `b`, the sum is at most `len * b`.
pub proof fn lemma_sum_bounded<T>(s: Seq<T>, f: spec_fn(T) -> nat, b: nat)
    requires
        forall|i: int| 0 <= i < s.len() ==> f(#[trigger] s[i]) <= b,
    ensures
        seq_sum(s, f) <= s.len() * b,
    decreases s.len(),
{
    if s.len() > 0 {
        lemma_sum_bounded(s.drop_last(), f, b);
        assert(s.drop_last().len() * b + b == s.len() * b) by (nonlinear_arith)
            requires s.len() >= 1, s.drop_last().len() == s.len() - 1;
    }
}

/// If the sum reaches `len * b` while every contribution is at most `b`,
/// then every contribution is exactly `b`.
pub proof fn lemma_sum_saturated<T>(s: Seq<T>, f: spec_fn(T) -> nat, b: nat)
    requires
        forall|i: int| 0 <= i < s.len() ==> f(#[trigger] s[i]) <= b,
        seq_sum(s, f) == s.len() * b,
    ensures
        forall|i: int| 0 <= i < s.len() ==> f(#[trigger] s[i]) == b,
    decreases s.len(),
{
    if s.len() > 0 {
        lemma_sum_bounded(s.drop_last(), f, b);
        assert(s.drop_last().len() * b + b == s.len() * b) by (nonlinear_arith)
            requires s.len() >= 1, s.drop_last().len() == s.len() - 1;
        lemma_sum_saturated(s.drop_last(), f, b);
        assert(forall|i: int| 0 <= i < s.len() - 1 ==> s.drop_last()[i] == #[trigger] s[i]);
    }
}

/// Two sequences on which `p` agrees pointwise have the same count.
pub proof fn lemma_count_pointwise<T>(s: Seq<T>, t: Seq<T>, p: spec_fn(T) -> bool)
    requires
        s.len() == t.len(),
        forall|i: int| 0 <= i < s.len() ==> p(#[trigger] s[i]) == p(#[trigger] t[i]),
    ensures
        seq_count(s, p) == seq_count(t, p),
    decreases s.len(),
{
    if s.len() > 0 {
        assert(forall|i: int| 0 <= i < s.len() - 1
            ==> #[trigger] s.drop_last()[i] == s[i] && #[trigger] t.drop_last()[i] == t[i]);
        lemma_count_pointwise(s.drop_last(), t.drop_last(), p);
        assert(p(s.last()) == p(t.last()));
    }
}

/// Whether `v` holds `a`.
pub fn vec_contains(v: &Vec<u64>, a: u64) -> (r: bool)
    ensures
        r == v@.contains(a),
{
    let mut i: usize = 0;
    while i < v.len()
        invariant
            i <= v.len(),
            forall|j: int| 0 <= j < i ==> v@[j] != a,
        decreases v.len() - i,
    {
        if v[i] == a {
            return true;
        }
        i = i + 1;
    }
    false
}

/// Whether `v` holds the index `a`.
pub fn vec_contains_usize(v: &Vec<usize>, a: usize) -> (r: bool)
    ensures
        r == v@.contains(a),
{
    let mut i: usize = 0;
    while i < v.len()
        invariant
            i <= v.len(),
            forall|j: int| 0 <= j < i ==> v@[j] != a,
        decreases v.len() - i,
    {
        if v[i] == a {
            return true;
        }
        i = i + 1;
    }
    false
}

} // verus!
