//! The fairness rule on wishes, and the slider update that keeps a wish fair.
use vstd::prelude::*;
use vstd::relations::sorted_by;
use crate::solver::as_ints;

verus! {

broadcast use {vstd::seq_lib::group_to_multiset_ensures, vstd::multiset::group_multiset_axioms};

/// Number of entries of `s` that are at least `v`.
pub open spec fn count_ge(s: Seq<int>, v: int) -> nat
    decreases s.len(),
{
    if s.len() == 0 {
        0
    } else {
        count_ge(s.drop_last(), v) + if s.last() >= v { 1nat } else { 0nat }
    }
}

/// The fairness rule: sorted ascending, the wish at rank `i` is at most `i`.
pub open spec fn is_fair(w: Seq<i32>) -> bool {
    let s = as_ints(w).sort();
    forall|i: int| 0 <= i < s.len() ==> s[i] <= i
}

/// The rule read as quotas: for each `v` in `1..=n`, at most `n - v` entries are `>= v`.
pub open spec fn within_quotas(s: Seq<int>) -> bool {
    forall|v: int| 1 <= v <= s.len() ==> #[trigger] count_ge(s, v) <= s.len() - v
}

pub proof fn lemma_count_ge_le_len(s: Seq<int>, v: int)
    ensures
        count_ge(s, v) <= s.len(),
    decreases s.len(),
{
    if s.len() > 0 {
        lemma_count_ge_le_len(s.drop_last(), v);
    }
}

proof fn lemma_count_ge_remove(s: Seq<int>, i: int, v: int)
    requires
        0 <= i < s.len(),
    ensures
        count_ge(s, v) == count_ge(s.remove(i), v) + if s[i] >= v { 1nat } else { 0nat },
    decreases s.len(),
{
    if i == s.len() - 1 {
        assert(s.remove(i) =~= s.drop_last());
    } else {
        lemma_count_ge_remove(s.drop_last(), i, v);
        assert(s.remove(i).drop_last() =~= s.drop_last().remove(i));
        assert(s.remove(i).last() == s.last());
    }
}

/// Two sequences holding the same entries have the same counts.
proof fn lemma_count_ge_multiset(s: Seq<int>, t: Seq<int>, v: int)
    requires
        s.to_multiset() == t.to_multiset(),
    ensures
        count_ge(s, v) == count_ge(t, v),
    decreases s.len(),
{
    if s.len() == 0 {
        assert(t.to_multiset().len() == 0);
        assert(t.len() == 0);
    } else {
        let x = s.last();
        assert(s.to_multiset().contains(x)) by {
            assert(s.contains(x)) by {
                assert(s[s.len() - 1] == x);
            }
        }
        assert(t.contains(x));
        let i = choose|i: int| 0 <= i < t.len() && t[i] == x;
        let t2 = t.remove(i);
        lemma_count_ge_remove(t, i, v);
        assert(s =~= s.drop_last().push(x));
        assert(s.drop_last().to_multiset() =~= s.to_multiset().remove(x));
        assert(t2.to_multiset() =~= t.to_multiset().remove(x));
        lemma_count_ge_multiset(s.drop_last(), t2, v);
    }
}

/// Entries from position `i` on are all `>= v`: at least `len - i` are counted.
proof fn lemma_count_ge_suffix(s: Seq<int>, i: int, v: int)
    requires
        0 <= i <= s.len(),
        forall|j: int| i <= j < s.len() ==> s[j] >= v,
    ensures
        count_ge(s, v) >= s.len() - i,
    decreases s.len(),
{
    if s.len() > i {
        lemma_count_ge_suffix(s.drop_last(), i, v);
    }
}

/// Entries before position `i` are all `< v`: at most `len - i` are counted.
proof fn lemma_count_ge_prefix(s: Seq<int>, i: int, v: int)
    requires
        0 <= i <= s.len(),
        forall|j: int| 0 <= j < i ==> s[j] < v,
    ensures
        count_ge(s, v) <= s.len() - i,
    decreases s.len(),
{
    if s.len() > 0 {
        if i == s.len() {
            lemma_count_ge_prefix(s.drop_last(), i - 1, v);
        } else {
            lemma_count_ge_prefix(s.drop_last(), i, v);
        }
    }
}

proof fn lemma_count_ge_update(s: Seq<int>, i: int, x: int, v: int)
    requires
        0 <= i < s.len(),
    ensures
        count_ge(s.update(i, x), v) + (if s[i] >= v { 1int } else { 0int }) == count_ge(s, v) + (if x >= v {
            1int
        } else {
            0int
        }),
    decreases s.len(),
{
    if i == s.len() - 1 {
        assert(s.update(i, x).drop_last() =~= s.drop_last());
    } else {
        lemma_count_ge_update(s.drop_last(), i, x, v);
        assert(s.update(i, x).drop_last() =~= s.drop_last().update(i, x));
    }
}

/// Without another entry equal to `v` beside position `idx`, at most one more entry is `>= v` than `>= v + 1`.
proof fn lemma_count_ge_single(s: Seq<int>, idx: int, v: int)
    requires
        forall|j: int| 0 <= j < s.len() && j != idx ==> s[j] != v,
    ensures
        count_ge(s, v) <= count_ge(s, v + 1) + if 0 <= idx < s.len() { 1int } else { 0int },
    decreases s.len(),
{
    if s.len() > 0 {
        lemma_count_ge_single(s.drop_last(), idx, v);
    }
}

proof fn lemma_as_ints_update(w: Seq<i32>, i: int, x: i32)
    requires
        0 <= i < w.len(),
    ensures
        as_ints(w.update(i, x)) == as_ints(w).update(i, x as int),
{
    assert(as_ints(w.update(i, x)) =~= as_ints(w).update(i, x as int));
}

proof fn lemma_as_ints_take(w: Seq<i32>, k: int)
    requires
        0 <= k < w.len(),
    ensures
        as_ints(w).take(k + 1) == as_ints(w).take(k).push(w[k] as int),
{
    assert(as_ints(w).take(k + 1) =~= as_ints(w).take(k).push(w[k] as int));
}

/// The rule as stated on the sorted wish and the rule read as quotas agree.
pub proof fn lemma_fair_iff_quotas(w: Seq<i32>)
    ensures
        is_fair(w) <==> within_quotas(as_ints(w)),
{
    let a = as_ints(w);
    let s = a.sort();
    let leq = |x: int, y: int| x <= y;
    a.lemma_sort_ensures();
    assert(s.len() == a.len()) by {
        assert(s.to_multiset().len() == a.to_multiset().len());
    }
    let n = a.len() as int;
    assert forall|v: int| 1 <= v <= n implies #[trigger] count_ge(a, v) == count_ge(s, v) by {
        lemma_count_ge_multiset(a, s, v);
    }
    if is_fair(w) {
        assert forall|v: int| 1 <= v <= n implies #[trigger] count_ge(a, v) <= n - v by {
            assert forall|j: int| 0 <= j < v implies s[j] < v by {
                assert(s[j] <= j);
            }
            lemma_count_ge_prefix(s, v, v);
            assert(count_ge(a, v) == count_ge(s, v));
        }
    }
    if within_quotas(a) {
        assert forall|i: int| 0 <= i < s.len() implies s[i] <= i by {
            if s[i] > i {
                let v = i + 1;
                assert forall|j: int| i <= j < s.len() implies s[j] >= v by {
                    if i < j {
                        assert(leq(s[i], s[j]));
                    }
                }
                lemma_count_ge_suffix(s, i, v);
                assert(count_ge(a, v) == count_ge(s, v));
                assert(count_ge(a, v) <= n - v);
            }
        }
    }
}

/// Counts of entries at least `v` depend only on the values of a wish, not on their order.
proof fn lemma_count_ge_reorder(s: Seq<i32>, t: Seq<i32>, v: int)
    requires
        s.to_multiset() == t.to_multiset(),
    ensures
        count_ge(as_ints(s), v) == count_ge(as_ints(t), v),
    decreases s.len(),
{
    if s.len() == 0 {
        assert(t.to_multiset().len() == 0);
        assert(t.len() == 0);
        assert(as_ints(t) =~= as_ints(s));
    } else {
        let x = s.last();
        assert(s.to_multiset().contains(x)) by {
            assert(s.contains(x)) by {
                assert(s[s.len() - 1] == x);
            }
        }
        assert(t.contains(x));
        let i = choose|i: int| 0 <= i < t.len() && t[i] == x;
        let t2 = t.remove(i);
        lemma_count_ge_remove(as_ints(t), i, v);
        assert(as_ints(t).remove(i) =~= as_ints(t2));
        assert(s =~= s.drop_last().push(x));
        assert(s.drop_last().to_multiset() =~= s.to_multiset().remove(x));
        assert(t2.to_multiset() =~= t.to_multiset().remove(x));
        lemma_count_ge_reorder(s.drop_last(), t2, v);
        assert(as_ints(s).drop_last() =~= as_ints(s.drop_last()));
    }
}

/// Whether a wish is fair does not depend on the order of its values.
pub proof fn lemma_fair_reorder(w1: Seq<i32>, w2: Seq<i32>)
    requires
        w1.to_multiset() == w2.to_multiset(),
    ensures
        is_fair(w1) == is_fair(w2),
{
    lemma_fair_iff_quotas(w1);
    lemma_fair_iff_quotas(w2);
    assert(w1.len() == w2.len()) by {
        vstd::seq_lib::to_multiset_len(w1);
        vstd::seq_lib::to_multiset_len(w2);
    }
    assert forall|v: int| 1 <= v <= w1.len() implies #[trigger] count_ge(as_ints(w1), v) == count_ge(as_ints(w2), v) by {
        lemma_count_ge_reorder(w1, w2, v);
    }
    if within_quotas(as_ints(w1)) {
        assert forall|v: int| 1 <= v <= as_ints(w2).len() implies #[trigger] count_ge(as_ints(w2), v) <= as_ints(w2).len() - v by {
            assert(count_ge(as_ints(w1), v) == count_ge(as_ints(w2), v));
        }
    }
    if within_quotas(as_ints(w2)) {
        assert forall|v: int| 1 <= v <= as_ints(w1).len() implies #[trigger] count_ge(as_ints(w1), v) <= as_ints(w1).len() - v by {
            assert(count_ge(as_ints(w1), v) == count_ge(as_ints(w2), v));
        }
    }
}

/// Lowering one value of a fair wish leaves it fair.
pub proof fn lemma_lowering_keeps_fair(w: Seq<i32>, i: int, x: i32)
    requires
        is_fair(w),
        0 <= i < w.len(),
        x <= w[i],
    ensures
        is_fair(w.update(i, x)),
{
    lemma_fair_iff_quotas(w);
    lemma_fair_iff_quotas(w.update(i, x));
    lemma_as_ints_update(w, i, x);
    assert forall|v: int| 1 <= v <= w.len() implies #[trigger] count_ge(as_ints(w.update(i, x)), v) <= w.len() - v by {
        lemma_count_ge_update(as_ints(w), i, x as int, v);
        assert(count_ge(as_ints(w), v) <= as_ints(w).len() - v);
    }
}

/// Checks the fairness rule: when sorted ascending, `sorted[i] <= i` for all `i`.
pub fn is_fair_wish(wish: &[i32]) -> (b: bool)
    ensures
        b == is_fair(wish@),
{
    proof {
        lemma_fair_iff_quotas(wish@);
    }
    let n = wish.len();
    let ghost a = as_ints(wish@);
    let mut k: usize = 0;
    while k < n
        invariant
            k <= n,
            n == wish.len(),
            a == as_ints(wish@),
            is_fair(wish@) == within_quotas(a),
            forall|u: int| 1 <= u <= k ==> #[trigger] count_ge(a, u) <= n - u,
        decreases n - k,
    {
        let v = k + 1;
        let mut c: usize = 0;
        let mut j: usize = 0;
        while j < n
            invariant
                j <= n,
                n == wish.len(),
                a == as_ints(wish@),
                v == k + 1,
                c == count_ge(a.take(j as int), v as int),
            decreases n - j,
        {
            proof {
                lemma_as_ints_take(wish@, j as int);
                assert(a.take(j + 1).drop_last() =~= a.take(j as int));
                lemma_count_ge_le_len(a.take(j as int), v as int);
            }
            if wish[j] >= 0 && wish[j] as usize >= v {
                c = c + 1;
            }
            j = j + 1;
        }
        assert(a.take(n as int) =~= a);
        assert(c == count_ge(a, v as int));
        if c > n - v {
            assert(!within_quotas(a)) by {
                assert(1 <= v <= a.len());
                assert(count_ge(a, v as int) > a.len() - v);
            }
            return false;
        }
        k = k + 1;
    }
    true
}

/// Position of the first entry from `k` on, other than `idx`, equal to `v`; `w.len()` when there is none.
pub open spec fn first_other(w: Seq<i32>, idx: int, v: int, k: int) -> int
    decreases w.len() - k,
{
    if k >= w.len() {
        w.len() as int
    } else if k != idx && w[k] == v {
        k
    } else {
        first_other(w, idx, v, k + 1)
    }
}

/// One step of raising slot `idx` to `v`: when more than `n - v` slots are then `>= v`,
/// the first other slot at `v` is lowered to `v - 1`.
pub open spec fn raise_step(w: Seq<i32>, idx: int, v: int, n: int) -> Seq<i32> {
    let w1 = w.update(idx, v as i32);
    if count_ge(as_ints(w1), v) > n - v {
        let i = first_other(w1, idx, v, 0);
        if i < w1.len() {
            w1.update(i, (v - 1) as i32)
        } else {
            w1
        }
    } else {
        w1
    }
}

/// The steps `lo..=hi` of raising slot `idx`, in order.
pub open spec fn raise(w: Seq<i32>, idx: int, lo: int, hi: int, n: int) -> Seq<i32>
    decreases hi + 1 - lo,
{
    if hi < lo {
        w
    } else {
        raise_step(raise(w, idx, lo, hi - 1, n), idx, hi, n)
    }
}

/// The wish after slider `idx` is moved to `new_value`.
pub open spec fn apply_fairness(w: Seq<i32>, idx: int, new_value: int, n: int) -> Seq<i32> {
    let old_value = w[idx] as int;
    let raised = if new_value > old_value {
        raise(w, idx, old_value + 1, new_value, n)
    } else {
        w
    };
    raised.update(idx, new_value as i32)
}

proof fn lemma_first_other(w: Seq<i32>, idx: int, v: int, k: int, i: int)
    requires
        0 <= k <= i <= w.len(),
        forall|j: int| k <= j < i ==> !(j != idx && w[j] == v),
        i == w.len() || (i != idx && w[i] == v),
    ensures
        first_other(w, idx, v, k) == i,
    decreases i - k,
{
    if k < i {
        lemma_first_other(w, idx, v, k + 1, i);
    }
}

proof fn lemma_first_other_bounds(w: Seq<i32>, idx: int, v: int, k: int)
    requires
        0 <= k <= w.len(),
    ensures
        k <= first_other(w, idx, v, k) <= w.len(),
        first_other(w, idx, v, k) < w.len() ==> first_other(w, idx, v, k) != idx && w[first_other(w, idx, v, k)]
            == v,
        forall|j: int| k <= j < first_other(w, idx, v, k) ==> !(j != idx && w[j] == v),
    decreases w.len() - k,
{
    if k < w.len() && !(k != idx && w[k] == v) {
        lemma_first_other_bounds(w, idx, v, k + 1);
    }
}

/// One raising step keeps the quotas when the slot is raised from `v - 1` to `v < n`.
proof fn lemma_raise_step_quotas(w: Seq<i32>, idx: int, v: int, n: int)
    requires
        n == w.len(),
        0 <= idx < n,
        v < n,
        v <= i32::MAX,
        w[idx] == v - 1,
        within_quotas(as_ints(w)),
    ensures
        raise_step(w, idx, v, n).len() == n,
        raise_step(w, idx, v, n)[idx] == v,
        within_quotas(as_ints(raise_step(w, idx, v, n))),
{
    let a = as_ints(w);
    let w1 = w.update(idx, v as i32);
    let a1 = as_ints(w1);
    lemma_as_ints_update(w, idx, v as i32);
    assert forall|u: int| 1 <= u <= n implies #[trigger] count_ge(a1, u) == count_ge(a, u) + if u == v {
        1int
    } else {
        0int
    } by {
        lemma_count_ge_update(a, idx, v, u);
    }
    if count_ge(a1, v) > n - v {
        lemma_count_ge_le_len(a1, v);
        let i = first_other(w1, idx, v, 0);
        lemma_first_other_bounds(w1, idx, v, 0);
        if i == w1.len() {
            assert forall|j: int| 0 <= j < a1.len() && j != idx implies a1[j] != v by {
                assert(!(j != idx && w1[j] == v));
            }
            lemma_count_ge_single(a1, idx, v);
            assert(count_ge(a1, v + 1) == count_ge(a, v + 1));
            assert(false);
        }
        let w2 = w1.update(i, (v - 1) as i32);
        lemma_as_ints_update(w1, i, (v - 1) as i32);
        assert forall|u: int| 1 <= u <= n implies #[trigger] count_ge(as_ints(w2), u) <= n - u by {
            lemma_count_ge_update(a1, i, v - 1, u);
        }
    } else {
        assert forall|u: int| 1 <= u <= n implies #[trigger] count_ge(a1, u) <= n - u by {
            assert(count_ge(a1, u) == count_ge(a, u) + if u == v { 1int } else { 0int });
        }
    }
}

proof fn lemma_raise_quotas(w: Seq<i32>, idx: int, lo: int, hi: int, n: int)
    requires
        n == w.len(),
        0 <= idx < n,
        lo <= hi + 1,
        hi < n,
        hi <= i32::MAX,
        w[idx] == lo - 1,
        within_quotas(as_ints(w)),
    ensures
        raise(w, idx, lo, hi, n).len() == n,
        raise(w, idx, lo, hi, n)[idx] == hi,
        within_quotas(as_ints(raise(w, idx, lo, hi, n))),
    decreases hi + 1 - lo,
{
    if hi >= lo {
        lemma_raise_quotas(w, idx, lo, hi - 1, n);
        lemma_raise_step_quotas(raise(w, idx, lo, hi - 1, n), idx, hi, n);
    }
}

/// Moving one slider of a fair wish to a value below the number of slots leaves the wish
/// fair, with that slider at its new value.
pub proof fn lemma_apply_fairness_keeps_fair(w: Seq<i32>, idx: int, new_value: i32)
    requires
        is_fair(w),
        0 <= idx < w.len(),
        new_value < w.len(),
    ensures
        apply_fairness(w, idx, new_value as int, w.len() as int).len() == w.len(),
        apply_fairness(w, idx, new_value as int, w.len() as int)[idx] == new_value,
        is_fair(apply_fairness(w, idx, new_value as int, w.len() as int)),
{
    let n = w.len() as int;
    let r = apply_fairness(w, idx, new_value as int, n);
    lemma_fair_iff_quotas(w);
    lemma_fair_iff_quotas(r);
    let old_value = w[idx] as int;
    let raised = if new_value > old_value {
        raise(w, idx, old_value + 1, new_value as int, n)
    } else {
        w
    };
    if new_value > old_value {
        lemma_raise_quotas(w, idx, old_value + 1, new_value as int, n);
    }
    lemma_as_ints_update(raised, idx, new_value);
    assert forall|u: int| 1 <= u <= n implies #[trigger] count_ge(as_ints(r), u) <= n - u by {
        lemma_count_ge_update(as_ints(raised), idx, new_value as int, u);
        assert(count_ge(as_ints(raised), u) <= n - u);
    }
}

/// Lowering a slider (or leaving it where it is) changes no other slot.
pub proof fn lemma_apply_fairness_lowering(w: Seq<i32>, idx: int, new_value: i32)
    requires
        0 <= idx < w.len(),
        new_value <= w[idx],
    ensures
        forall|n: int| #[trigger] apply_fairness(w, idx, new_value as int, n) == w.update(idx, new_value),
{
}

/// Raising slot `idx` from `lo - 1` through `hi` lowers each other slot at most once, by one,
/// and only a slot whose value lay in `lo..=hi`.
proof fn lemma_raise_moves(w: Seq<i32>, idx: int, lo: int, hi: int, n: int)
    requires
        0 <= idx < w.len(),
        lo <= hi + 1,
        hi <= i32::MAX,
        w[idx] == lo - 1,
    ensures
        raise(w, idx, lo, hi, n).len() == w.len(),
        raise(w, idx, lo, hi, n)[idx] == hi,
        forall|j: int|
            0 <= j < w.len() && j != idx ==> #[trigger] raise(w, idx, lo, hi, n)[j] == w[j] || (raise(w, idx, lo, hi, n)[j]
                == w[j] - 1 && lo <= w[j] <= hi),
    decreases hi + 1 - lo,
{
    if hi >= lo {
        lemma_raise_moves(w, idx, lo, hi - 1, n);
        let r = raise(w, idx, lo, hi - 1, n);
        let w1 = r.update(idx, hi as i32);
        lemma_first_other_bounds(w1, idx, hi, 0);
        let r2 = raise(w, idx, lo, hi, n);
        assert(r2 == raise_step(r, idx, hi, n));
        assert forall|j: int| 0 <= j < w.len() && j != idx implies #[trigger] r2[j] == w[j] || (r2[j] == w[j] - 1
            && lo <= w[j] <= hi) by {
            assert(r[j] == w[j] || (r[j] == w[j] - 1 && lo <= w[j] <= hi - 1));
        }
    }
}

/// Moving slider `idx` of a wish whose values all lie in `0..n` (`n` its length) to a value
/// in `0..n` keeps every value in `0..n` and sets the slider; every other slot keeps its
/// value, or, when the slider was raised, may lose one, and only if its value lay above the
/// slider's old value and at most at its new one.
pub proof fn lemma_apply_fairness_moves(w: Seq<i32>, idx: int, new_value: i32)
    requires
        0 <= idx < w.len(),
        forall|j: int| 0 <= j < w.len() ==> 0 <= #[trigger] w[j] < w.len(),
        0 <= new_value < w.len(),
    ensures
        ({
            let r = apply_fairness(w, idx, new_value as int, w.len() as int);
            &&& r.len() == w.len()
            &&& r[idx] == new_value
            &&& forall|j: int| 0 <= j < r.len() ==> 0 <= #[trigger] r[j] < w.len()
            &&& forall|j: int|
                0 <= j < w.len() && j != idx ==> #[trigger] r[j] == w[j] || (new_value > w[idx] && r[j] == w[j] - 1
                    && w[idx] < w[j] <= new_value)
        }),
{
    let n = w.len() as int;
    let old_value = w[idx] as int;
    if new_value > old_value {
        lemma_raise_moves(w, idx, old_value + 1, new_value as int, n);
    }
    let r = apply_fairness(w, idx, new_value as int, n);
    assert forall|j: int| 0 <= j < r.len() implies 0 <= #[trigger] r[j] < w.len() by {
        if j != idx {
            assert(0 <= w[j] < w.len());
        }
    }
}

/// Sets slot `idx` to `new_value`, moving up one step at a time: whenever a step leaves more
/// than `n - v` slots at `v` or above, the first other slot at `v` is lowered to `v - 1`.
pub fn apply_fairness_vec(wish: &mut [i32], idx: usize, new_value: i32, n: usize)
    requires
        idx < old(wish).len(),
        new_value > old(wish)[idx as int] ==> -1 <= old(wish)[idx as int] && new_value <= n,
    ensures
        final(wish)@ == apply_fairness(old(wish)@, idx as int, new_value as int, n as int),
{
    let ghost w0 = wish@;
    let old_value = wish[idx];
    if new_value > old_value {
        let mut v: i64 = old_value as i64 + 1;
        while v <= new_value as i64
            invariant
                w0 == old(wish)@,
                idx < wish.len(),
                wish.len() == w0.len(),
                w0[idx as int] == old_value,
                new_value > old_value,
                -1 <= old_value,
                new_value <= n,
                old_value + 1 <= v <= new_value + 1,
                wish@ == raise(w0, idx as int, old_value + 1, v - 1, n as int),
            decreases new_value + 1 - v,
        {
            let ghost before = wish@;
            wish[idx] = v as i32;
            let ghost w1 = wish@;
            assert(w1 == before.update(idx as int, v as i32));
            let ghost a1 = as_ints(w1);
            let mut c: usize = 0;
            let mut j: usize = 0;
            while j < wish.len()
                invariant
                    j <= wish.len(),
                    wish@ == w1,
                    a1 == as_ints(w1),
                    c == count_ge(a1.take(j as int), v as int),
                decreases wish.len() - j,
            {
                proof {
                    lemma_as_ints_take(w1, j as int);
                    assert(a1.take(j + 1).drop_last() =~= a1.take(j as int));
                    lemma_count_ge_le_len(a1.take(j as int), v as int);
                }
                if wish[j] as i64 >= v {
                    c = c + 1;
                }
                j = j + 1;
            }
            assert(a1.take(wish.len() as int) =~= a1);
            if c > n - v as usize {
                let mut i: usize = 0;
                while i < wish.len()
                    invariant_except_break
                        forall|k: int| 0 <= k < i ==> !(k != idx && w1[k] == v),
                        wish@ == w1,
                    invariant
                        i <= wish.len(),
                        wish.len() == w1.len(),
                    ensures
                        i <= w1.len(),
                        wish@ == (if i < w1.len() { w1.update(i as int, (v - 1) as i32) } else { w1 }),
                        forall|k: int| 0 <= k < i ==> !(k != idx && w1[k] == v),
                        i < w1.len() ==> i != idx && w1[i as int] == v,
                    decreases wish.len() - i,
                {
                    if i != idx && wish[i] as i64 == v {
                        wish[i] = (v - 1) as i32;
                        break;
                    }
                    i = i + 1;
                }
                proof {
                    lemma_first_other(w1, idx as int, v as int, 0, i as int);
                }
            }
            v = v + 1;
        }
    }
    wish[idx] = new_value;
}

} // verus!
