//! Sums of integer sequences, used to state flow conservation and to
//! bound the accumulators of the max-flow loop.

use vstd::prelude::*;

verus! {

/// The sum of all entries of `s`.
pub open spec fn sum_int(s: Seq<int>) -> int
    decreases s.len(),
{
    if s.len() == 0 {
        0
    } else {
        sum_int(s.drop_last()) + s.last()
    }
}

/// Changing one entry changes the sum by the difference.
pub proof fn lemma_sum_update(s: Seq<int>, i: int, x: int)
    requires
        0 <= i < s.len(),
    ensures
        sum_int(s.update(i, x)) == sum_int(s) - s[i] + x,
    decreases s.len(),
{
    let t = s.update(i, x);
    if i == s.len() - 1 {
        assert(t.drop_last() =~= s.drop_last());
        assert(t.last() == x);
    } else {
        assert(t.drop_last() =~= s.drop_last().update(i, x));
        lemma_sum_update(s.drop_last(), i, x);
        assert(t.last() == s.last());
    }
}

/// A pointwise bound on the entries gives the same bound on the sums.
pub proof fn lemma_sum_pointwise_le(a: Seq<int>, b: Seq<int>)
    requires
        a.len() == b.len(),
        forall|i: int| 0 <= i < a.len() ==> a[i] <= b[i],
    ensures
        sum_int(a) <= sum_int(b),
    decreases a.len(),
{
    if a.len() > 0 {
        assert(forall|i: int| 0 <= i < a.drop_last().len() ==> a.drop_last()[i] == a[i]);
        lemma_sum_pointwise_le(a.drop_last(), b.drop_last());
        assert(a.last() == a[a.len() - 1]);
        assert(b.last() == b[b.len() - 1]);
    }
}

/// Equal sequences have equal sums (stated for convenient rewriting).
pub proof fn lemma_sum_eq(a: Seq<int>, b: Seq<int>)
    requires
        a.len() == b.len(),
        forall|i: int| 0 <= i < a.len() ==> a[i] == b[i],
    ensures
        sum_int(a) == sum_int(b),
{
    assert(a =~= b);
}

/// A sequence of non-negative entries has a non-negative sum.
pub proof fn lemma_sum_nonneg(s: Seq<int>)
    requires
        forall|i: int| 0 <= i < s.len() ==> s[i] >= 0,
    ensures
        sum_int(s) >= 0,
    decreases s.len(),
{
    if s.len() > 0 {
        assert(forall|i: int| 0 <= i < s.drop_last().len() ==> s.drop_last()[i] == s[i]);
        lemma_sum_nonneg(s.drop_last());
        assert(s.last() == s[s.len() - 1]);
    }
}

/// In a sequence of non-negative entries, every entry bounds the sum from
/// below.
pub proof fn lemma_sum_elem_le(s: Seq<int>, i: int)
    requires
        forall|k: int| 0 <= k < s.len() ==> s[k] >= 0,
        0 <= i < s.len(),
    ensures
        s[i] <= sum_int(s),
    decreases s.len(),
{
    assert(s.last() == s[s.len() - 1]);
    assert(forall|k: int| 0 <= k < s.drop_last().len() ==> s.drop_last()[k] == s[k]);
    if i == s.len() - 1 {
        lemma_sum_nonneg(s.drop_last());
    } else {
        lemma_sum_elem_le(s.drop_last(), i);
    }
}

/// Two distinct entries of a non-negative sequence together bound the sum
/// from below.
pub proof fn lemma_sum_two_le(s: Seq<int>, i: int, j: int)
    requires
        forall|k: int| 0 <= k < s.len() ==> s[k] >= 0,
        0 <= i < s.len(),
        0 <= j < s.len(),
        i != j,
    ensures
        s[i] + s[j] <= sum_int(s),
{
    let t = s.update(i, 0int);
    lemma_sum_update(s, i, 0int);
    assert(forall|k: int| 0 <= k < t.len() ==> t[k] >= 0);
    lemma_sum_elem_le(t, j);
    assert(t[j] == s[j]);
}

/// Sums distribute over pointwise addition.
pub proof fn lemma_sum_pointwise_add(a: Seq<int>, b: Seq<int>, c: Seq<int>)
    requires
        a.len() == b.len(),
        a.len() == c.len(),
        forall|i: int| 0 <= i < a.len() ==> c[i] == a[i] + b[i],
    ensures
        sum_int(c) == sum_int(a) + sum_int(b),
    decreases a.len(),
{
    if a.len() > 0 {
        assert(forall|i: int| 0 <= i < a.drop_last().len() ==> a.drop_last()[i] == a[i]);
        assert(forall|i: int| 0 <= i < b.drop_last().len() ==> b.drop_last()[i] == b[i]);
        assert(forall|i: int| 0 <= i < c.drop_last().len() ==> c.drop_last()[i] == c[i]);
        lemma_sum_pointwise_add(a.drop_last(), b.drop_last(), c.drop_last());
        assert(a.last() == a[a.len() - 1]);
        assert(b.last() == b[b.len() - 1]);
        assert(c.last() == c[c.len() - 1]);
    }
}

/// The sum over a duplicate-free list of positions equals the sum over the
/// whole index range of the same values masked to those positions.
pub proof fn lemma_sum_distinct_indices(idx: Seq<usize>, f: spec_fn(int) -> int, n: int)
    requires
        0 <= n <= usize::MAX,
        forall|i: int, j: int| 0 <= i < j < idx.len() ==> idx[i] != idx[j],
        forall|i: int| 0 <= i < idx.len() ==> (#[trigger] idx[i]) < n,
    ensures
        sum_int(Seq::new(idx.len(), |k: int| f(idx[k] as int))) == sum_int(
            Seq::new(n as nat, |v: int| if idx.contains(v as usize) { f(v) } else { 0int }),
        ),
    decreases idx.len(),
{
    let lhs = Seq::new(idx.len(), |k: int| f(idx[k] as int));
    let rhs = Seq::new(n as nat, |v: int| if idx.contains(v as usize) { f(v) } else { 0int });
    if idx.len() == 0 {
        assert forall|v: int| 0 <= v < n implies rhs[v] == 0 by {
            assert(!idx.contains(v as usize));
        }
        lemma_sum_eq(rhs, Seq::new(n as nat, |v: int| 0int));
        lemma_sum_zero(n);
        assert(Seq::new(if n >= 0 { n as nat } else { 0 }, |v: int| 0int) =~= Seq::new(
            n as nat,
            |v: int| 0int,
        ));
    } else {
        let pre = idx.drop_last();
        let e = idx.last();
        assert(idx.last() == idx[idx.len() - 1]);
        assert(forall|i: int| 0 <= i < pre.len() ==> pre[i] == idx[i]);
        lemma_sum_distinct_indices(pre, f, n);
        let lhs_pre = Seq::new(pre.len(), |k: int| f(pre[k] as int));
        let rhs_pre = Seq::new(n as nat, |v: int| if pre.contains(v as usize) { f(v) } else { 0int });
        assert(lhs.drop_last() =~= lhs_pre);
        assert(lhs.last() == f(e as int));
        // the masked range sequence gains exactly the entry at position e
        assert(!pre.contains(e));
        assert(rhs =~= rhs_pre.update(e as int, f(e as int))) by {
            assert forall|v: int| 0 <= v < n implies rhs[v] == rhs_pre.update(
                e as int,
                f(e as int),
            )[v] by {
                if v == e as int {
                    assert(idx.contains(e));
                    assert(rhs[v] == f(v));
                } else {
                    assert(idx.contains(v as usize) == pre.contains(v as usize)) by {
                        if idx.contains(v as usize) {
                            let k = choose|k: int| 0 <= k < idx.len() && idx[k] == v as usize;
                            assert(k < pre.len());
                            assert(pre[k] == v as usize);
                        }
                        if pre.contains(v as usize) {
                            let k = choose|k: int| 0 <= k < pre.len() && pre[k] == v as usize;
                            assert(idx[k] == v as usize);
                        }
                    }
                }
            }
        }
        assert(rhs_pre[e as int] == 0);
        lemma_sum_update(rhs_pre, e as int, f(e as int));
        assert(sum_int(rhs) == sum_int(rhs_pre) + f(e as int));
        assert(sum_int(lhs) == sum_int(lhs.drop_last()) + lhs.last());
        assert(sum_int(lhs) == sum_int(lhs_pre) + f(e as int));
    }
}

/// A sequence of zeros sums to zero.
pub proof fn lemma_sum_zero(n: int)
    ensures
        sum_int(Seq::new(if n >= 0 { n as nat } else { 0 }, |v: int| 0int)) == 0,
    decreases (if n >= 0 { n as nat } else { 0 }),
{
    let m: nat = if n >= 0 { n as nat } else { 0 };
    let s = Seq::new(m, |v: int| 0int);
    if m > 0 {
        lemma_sum_zero(n - 1);
        let m1: nat = (m - 1) as nat;
        assert(s.drop_last() =~= Seq::new(m1, |v: int| 0int));
    }
}

} // verus!
