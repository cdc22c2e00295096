//! Permutations of `0..n` and sums over them.
use vstd::prelude::*;
use vstd::set_lib::{set_int_range, lemma_int_range, lemma_map_size, lemma_len_subset, lemma_subset_equality};

verus! {

/// `p` lists each of `0..n` exactly once.
pub open spec fn is_permutation(p: Seq<int>, n: int) -> bool {
    &&& p.len() == n
    &&& forall|i: int| 0 <= i < n ==> 0 <= #[trigger] p[i] < n
    &&& forall|i: int, k: int| 0 <= i < n && 0 <= k < n && i != k ==> #[trigger] p[i] != #[trigger] p[k]
}

/// `f(0) + ... + f(n - 1)`.
pub open spec fn sum_range(f: spec_fn(int) -> int, n: int) -> int
    decreases n,
{
    if n <= 0 {
        0
    } else {
        sum_range(f, n - 1) + f(n - 1)
    }
}

/// `f(p[0]) + ... + f(p[len - 1])`.
pub open spec fn sum_over(p: Seq<int>, f: spec_fn(int) -> int) -> int
    decreases p.len(),
{
    if p.len() == 0 {
        0
    } else {
        sum_over(p.drop_last(), f) + f(p.last())
    }
}

/// Every value of `0..n` occurs in a permutation of `0..n`.
pub proof fn lemma_permutation_onto(p: Seq<int>, n: int, j: int) -> (k: int)
    requires
        is_permutation(p, n),
        0 <= j < n,
    ensures
        0 <= k < n,
        p[k] == j,
{
    let x = set_int_range(0, n);
    let f = |i: int| p[i];
    let y = x.map(f);
    lemma_int_range(0, n);
    assert(vstd::relations::injective_on(f, x));
    lemma_map_size(x, y, f);
    assert(y.subset_of(x));
    lemma_subset_equality(y, x);
    assert(x.contains(j));
    assert(y.contains(j));
    let k = choose|k: int| x.contains(k) && f(k) == j;
    k
}

proof fn lemma_sum_over_update(p: Seq<int>, f: spec_fn(int) -> int, k: int, x: int)
    requires
        0 <= k < p.len(),
    ensures
        sum_over(p.update(k, x), f) == sum_over(p, f) - f(p[k]) + f(x),
    decreases p.len(),
{
    let q = p.update(k, x);
    if k == p.len() - 1 {
        assert(q.drop_last() =~= p.drop_last());
    } else {
        assert(q.drop_last() =~= p.drop_last().update(k, x));
        lemma_sum_over_update(p.drop_last(), f, k, x);
    }
}

/// Summing over a permutation of `0..n` is summing over `0..n`.
pub proof fn lemma_sum_over_permutation(p: Seq<int>, n: int, f: spec_fn(int) -> int)
    requires
        is_permutation(p, n),
    ensures
        sum_over(p, f) == sum_range(f, n),
    decreases n,
{
    if n > 0 {
        let k = lemma_permutation_onto(p, n, n - 1);
        let q = p.update(k, p[n - 1]).drop_last();
        assert forall|i: int| 0 <= i < n - 1 implies 0 <= #[trigger] q[i] < n - 1 by {
            if i == k {
                assert(p[n - 1] != p[k]);
            } else {
                assert(p[i] != p[k]);
            }
        }
        assert forall|i: int, l: int| 0 <= i < n - 1 && 0 <= l < n - 1 && i != l implies #[trigger] q[i]
            != #[trigger] q[l] by {
            if i == k {
                assert(p[n - 1] != p[l]);
            } else if l == k {
                assert(p[n - 1] != p[i]);
            } else {
                assert(p[i] != p[l]);
            }
        }
        lemma_sum_over_permutation(q, n - 1, f);
        if k < n - 1 {
            assert(q =~= p.drop_last().update(k, p[n - 1]));
            lemma_sum_over_update(p.drop_last(), f, k, p[n - 1]);
        } else {
            assert(q =~= p.drop_last());
        }
    }
}

} // verus!
