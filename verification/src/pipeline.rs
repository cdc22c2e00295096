//! The assignment pipeline: shuffle the participants, build the costs, solve, and map the
//! seats back to slots for each participant in the given order.
use vstd::prelude::*;
use crate::permutation::{is_permutation, sum_range, sum_over, lemma_sum_over_permutation, lemma_permutation_onto};
use crate::solver::{total_cost, is_optimal, as_ints};
use crate::hungarian::{hungarian, padded, restrict, valid_costs, side, n_rows, n_cols, MAX_COST};
use crate::model::Slot;
use crate::parse::{
    ParsedParticipant, ParseError, ParseModel, ParseResult, parse, parse_spec, parse_inv, vmax_sum, error_view,
    lemma_parse_spec_inv,
};
use crate::format::{count_in_slot, format_results, report, reportable, max_wish, max_all, max_values, score, wish_at};
use crate::assignment::{
    build_cost_matrix, assignment_to_slots, cost_row, penalty, max_sq, max_sq_all, max_int, row_ints,
    seat_counts, prefix_sum, slot_of, placed, lemma_placed, lemma_slot_of_block, valid_wishes, sq, costs_fit,
};

verus! {

/// Total number of seats over all slots.
pub open spec fn total_seats(slots: Seq<(u32, u32)>, n: usize) -> int {
    prefix_sum(seat_counts(slots, n), slots.len() as int)
}

/// The cost of giving participant `w` the seat (column) `j`, zero outside the matrix.
pub open spec fn wish_costs(ws: Seq<Vec<i32>>, slots: Seq<(u32, u32)>, n: usize) -> spec_fn(int, int) -> int {
    let x = penalty(ws, slots.len() as int);
    |w: int, j: int|
        if 0 <= w < ws.len() && 0 <= j < cost_row(ws[w]@, slots, n, x).len() {
            cost_row(ws[w]@, slots, n, x)[j]
        } else {
            0
        }
}

/// `p` on `0..p.len()`, then the identity up to `m`.
pub open spec fn extend_perm(p: Seq<int>, m: int) -> Seq<int> {
    Seq::new(m as nat, |i: int| if i < p.len() { p[i] } else { i })
}

/// The inverse of a permutation of `0..m`.
pub open spec fn inverse_perm(p: Seq<int>, m: int) -> Seq<int> {
    Seq::new(m as nat, |k: int| choose|i: int| 0 <= i < m && p[i] == k)
}

/// `a` after `b`: entry `i` is `a[b[i]]`.
pub open spec fn compose(a: Seq<int>, b: Seq<int>) -> Seq<int> {
    Seq::new(b.len(), |i: int| a[b[i]])
}

/// The indices of a `usize` sequence, as integers.
pub open spec fn usize_ints(s: Seq<usize>) -> Seq<int> {
    s.map_values(|x: usize| x as int)
}

proof fn lemma_extend_perm(p: Seq<int>, n: int, m: int)
    requires
        is_permutation(p, n),
        n <= m,
    ensures
        is_permutation(extend_perm(p, m), m),
{
    let e = extend_perm(p, m);
    assert forall|i: int, k: int| 0 <= i < m && 0 <= k < m && i != k implies #[trigger] e[i] != #[trigger] e[k] by {
        if i < n && k < n {
        } else if i < n {
            assert(e[i] < n);
        } else if k < n {
            assert(e[k] < n);
        }
    }
}

proof fn lemma_inverse_perm(p: Seq<int>, m: int)
    requires
        is_permutation(p, m),
    ensures
        is_permutation(inverse_perm(p, m), m),
        forall|i: int| 0 <= i < m ==> #[trigger] inverse_perm(p, m)[p[i]] == i,
        forall|k: int| 0 <= k < m ==> #[trigger] p[inverse_perm(p, m)[k]] == k,
{
    let q = inverse_perm(p, m);
    assert forall|k: int| 0 <= k < m implies 0 <= #[trigger] q[k] < m && p[q[k]] == k by {
        let i = lemma_permutation_onto(p, m, k);
        assert(0 <= i < m && p[i] == k);
    }
    assert forall|i: int| 0 <= i < m implies #[trigger] q[p[i]] == i by {
        let k = p[i];
        assert(0 <= q[k] < m && p[q[k]] == k);
        if q[k] != i {
            assert(p[q[k]] != p[i]);
        }
    }
    assert forall|i: int, k: int| 0 <= i < m && 0 <= k < m && i != k implies #[trigger] q[i] != #[trigger] q[k] by {
        assert(p[q[i]] == i);
        assert(p[q[k]] == k);
    }
}

proof fn lemma_compose_perm(a: Seq<int>, b: Seq<int>, m: int)
    requires
        is_permutation(a, m),
        is_permutation(b, m),
    ensures
        is_permutation(compose(a, b), m),
{
    let c = compose(a, b);
    assert forall|i: int| 0 <= i < m implies 0 <= #[trigger] c[i] < m by {
        assert(0 <= b[i] < m);
    }
    assert forall|i: int, k: int| 0 <= i < m && 0 <= k < m && i != k implies #[trigger] c[i] != #[trigger] c[k] by {
        assert(b[i] != b[k]);
    }
}

proof fn lemma_total_cost_sum(m: spec_fn(int, int) -> int, p: Seq<int>, k: int)
    requires
        0 <= k,
    ensures
        total_cost(m, p, k) == sum_range(|w: int| m(w, p[w]), k),
    decreases k,
{
    if k > 0 {
        lemma_total_cost_sum(m, p, k - 1);
    }
}

proof fn lemma_sum_range_ext(f: spec_fn(int) -> int, g: spec_fn(int) -> int, k: int)
    requires
        forall|i: int| 0 <= i < k ==> #[trigger] f(i) == g(i),
    ensures
        sum_range(f, k) == sum_range(g, k),
    decreases k,
{
    if k > 0 {
        lemma_sum_range_ext(f, g, k - 1);
    }
}

proof fn lemma_sum_over_prefix(p: Seq<int>, g: spec_fn(int) -> int, k: int)
    requires
        0 <= k <= p.len(),
    ensures
        sum_over(p.take(k), g) == sum_range(|i: int| g(p[i]), k),
    decreases k,
{
    if k > 0 {
        lemma_sum_over_prefix(p, g, k - 1);
        assert(p.take(k).drop_last() =~= p.take(k - 1));
    }
}

/// Summing `g` over `0..m` in the order of a permutation gives the same total.
proof fn lemma_sum_reindex(g: spec_fn(int) -> int, p: Seq<int>, m: int)
    requires
        is_permutation(p, m),
    ensures
        sum_range(g, m) == sum_range(|i: int| g(p[i]), m),
{
    lemma_sum_over_permutation(p, m, g);
    lemma_sum_over_prefix(p, g, m);
    assert(p.take(m) =~= p);
}

/// Reordering the rows of a matrix by `p` reorders the cost of an assignment the same way.
proof fn lemma_total_cost_reorder(
    a: spec_fn(int, int) -> int,
    b: spec_fn(int, int) -> int,
    p: Seq<int>,
    s: Seq<int>,
    m: int,
)
    requires
        is_permutation(p, m),
        forall|i: int, j: int| 0 <= i < m && 0 <= j < m ==> #[trigger] b(p[i], j) == a(i, j),
        forall|k: int| 0 <= k < m ==> 0 <= #[trigger] s[k] < m,
    ensures
        total_cost(b, s, m) == total_cost(a, compose(s, p), m),
{
    let g = |k: int| b(k, s[k]);
    lemma_total_cost_sum(b, s, m);
    lemma_sum_reindex(g, p, m);
    let c = compose(s, p);
    lemma_total_cost_sum(a, c, m);
    let f1 = |i: int| g(p[i]);
    let f2 = |w: int| a(w, c[w]);
    assert forall|i: int| 0 <= i < m implies #[trigger] f1(i) == f2(i) by {
        assert(0 <= p[i] < m);
        assert(0 <= s[p[i]] < m);
        assert(b(p[i], s[p[i]]) == a(i, s[p[i]]));
    }
    lemma_sum_range_ext(f1, f2, m);
}

/// A cheapest assignment of the rows reordered by `p` gives, read back through `p`, a
/// cheapest assignment of the rows as given.
pub proof fn lemma_optimal_reorder(
    a: spec_fn(int, int) -> int,
    b: spec_fn(int, int) -> int,
    p: Seq<int>,
    s: Seq<int>,
    m: int,
)
    requires
        is_permutation(p, m),
        forall|i: int, j: int| 0 <= i < m && 0 <= j < m ==> #[trigger] b(p[i], j) == a(i, j),
        is_optimal(b, s, m),
    ensures
        is_optimal(a, compose(s, p), m),
{
    lemma_compose_perm(s, p, m);
    lemma_total_cost_reorder(a, b, p, s, m);
    let pinv = inverse_perm(p, m);
    lemma_inverse_perm(p, m);
    assert forall|q: Seq<int>| is_permutation(q, m) implies total_cost(a, compose(s, p), m) <= #[trigger] total_cost(
        a,
        q,
        m,
    ) by {
        let q2 = compose(q, pinv);
        lemma_compose_perm(q, pinv, m);
        lemma_total_cost_reorder(a, b, p, q2, m);
        assert(compose(q2, p) =~= q) by {
            assert forall|i: int| 0 <= i < m implies #[trigger] compose(q2, p)[i] == q[i] by {
                assert(pinv[p[i]] == i);
            }
        }
        assert(total_cost(b, s, m) <= total_cost(b, q2, m));
    }
}

proof fn lemma_max_sq_all_ge(ws: Seq<Vec<i32>>, r: int)
    requires
        0 <= r < ws.len(),
    ensures
        max_sq_all(ws) >= max_sq(ws[r]@),
    decreases ws.len(),
{
    if r < ws.len() - 1 {
        lemma_max_sq_all_ge(ws.drop_last(), r);
    }
}

proof fn lemma_max_sq_all_attained(ws: Seq<Vec<i32>>)
    ensures
        max_sq_all(ws) == 0 || exists|r: int| 0 <= r < ws.len() && max_sq_all(ws) == #[trigger] max_sq(ws[r]@),
    decreases ws.len(),
{
    if ws.len() > 0 {
        lemma_max_sq_all_attained(ws.drop_last());
        if max_sq_all(ws) != max_sq(ws[ws.len() - 1]@) && max_sq_all(ws.drop_last()) != 0 {
            let r = choose|r: int| 0 <= r < ws.drop_last().len() && max_sq_all(ws.drop_last()) == #[trigger] max_sq(
                ws.drop_last()[r]@,
            );
            assert(max_sq_all(ws) == max_sq(ws[r]@));
        }
    }
}

proof fn lemma_max_sq_nonneg(s: Seq<i32>)
    ensures
        max_sq(s) >= 0,
    decreases s.len(),
{
    if s.len() > 0 {
        lemma_max_sq_nonneg(s.drop_last());
    }
}

proof fn lemma_max_sq_all_nonneg(ws: Seq<Vec<i32>>)
    ensures
        max_sq_all(ws) >= 0,
    decreases ws.len(),
{
    if ws.len() > 0 {
        lemma_max_sq_all_nonneg(ws.drop_last());
    }
}

/// Two lists of wishes holding the same rows have the same largest square.
proof fn lemma_max_sq_all_same_rows(a: Seq<Vec<i32>>, b: Seq<Vec<i32>>, to_b: Seq<int>, to_a: Seq<int>)
    requires
        to_b.len() == a.len(),
        to_a.len() == b.len(),
        forall|r: int| 0 <= r < a.len() ==> 0 <= #[trigger] to_b[r] < b.len() && a[r]@ == b[to_b[r]]@,
        forall|k: int| 0 <= k < b.len() ==> 0 <= #[trigger] to_a[k] < a.len() && a[to_a[k]]@ == b[k]@,
    ensures
        max_sq_all(a) == max_sq_all(b),
{
    lemma_max_sq_all_attained(a);
    lemma_max_sq_all_attained(b);
    lemma_max_sq_all_nonneg(a);
    lemma_max_sq_all_nonneg(b);
    if max_sq_all(a) != 0 {
        let r = choose|r: int| 0 <= r < a.len() && max_sq_all(a) == #[trigger] max_sq(a[r]@);
        assert(0 <= to_b[r] < b.len());
        lemma_max_sq_all_ge(b, to_b[r]);
    }
    if max_sq_all(b) != 0 {
        let k = choose|k: int| 0 <= k < b.len() && max_sq_all(b) == #[trigger] max_sq(b[k]@);
        assert(0 <= to_a[k] < a.len());
        lemma_max_sq_all_ge(a, to_a[k]);
    }
}

/// The wishes reordered by a permutation are valid wishes with the same penalty.
proof fn lemma_permuted_wishes(ws: Seq<Vec<i32>>, pw: Seq<Vec<i32>>, p: Seq<int>, n: int, n_slots: int)
    requires
        ws.len() == n,
        pw.len() == n,
        is_permutation(p, n),
        forall|q: int| 0 <= q < n ==> #[trigger] pw[p[q]]@ == ws[q]@,
        valid_wishes(ws, n_slots),
    ensures
        valid_wishes(pw, n_slots),
        penalty(pw, n_slots) == penalty(ws, n_slots),
{
    let pinv = inverse_perm(p, n);
    lemma_inverse_perm(p, n);
    assert forall|k: int| 0 <= k < n implies 0 <= #[trigger] pinv[k] < n && ws[pinv[k]]@ == pw[k]@ by {
        assert(p[pinv[k]] == k);
    }
    lemma_max_sq_all_same_rows(ws, pw, p, pinv);
    assert forall|r: int| 0 <= r < pw.len() implies #[trigger] pw[r]@.len() >= n_slots by {
        assert(ws[pinv[r]]@ == pw[r]@);
    }
    assert forall|r: int, q: int| 0 <= r < pw.len() && 0 <= q < pw[r]@.len() implies #[trigger] sq(pw[r]@[q])
        <= i32::MAX by {
        assert(ws[pinv[r]]@ == pw[r]@);
        assert(sq(ws[pinv[r]]@[q]) <= i32::MAX);
    }
}

/// The solver's costs on the reordered rows are the participants' costs moved to the rows
/// given by the permutation extended by the identity.
proof fn lemma_costs_reordered(
    ws: Seq<Vec<i32>>,
    pw: Seq<Vec<i32>>,
    cost: Seq<Vec<i64>>,
    slots: Seq<(u32, u32)>,
    p: Seq<int>,
    n: usize,
    m: int,
)
    requires
        ws.len() == n,
        pw.len() == n,
        cost.len() == n,
        n <= m,
        is_permutation(p, n as int),
        forall|q: int| 0 <= q < n ==> #[trigger] pw[p[q]]@ == ws[q]@,
        penalty(pw, slots.len() as int) == penalty(ws, slots.len() as int),
        forall|r: int| 0 <= r < n ==> row_ints(#[trigger] cost[r]@) == cost_row(pw[r]@, slots, n, penalty(pw, slots.len() as int)),
    ensures
        is_permutation(extend_perm(p, m), m),
        forall|i: int, j: int| 0 <= i < m && 0 <= j < m ==> #[trigger] padded(cost)(extend_perm(p, m)[i], j)
            == wish_costs(ws, slots, n)(i, j),
{
    let big_p = extend_perm(p, m);
    lemma_extend_perm(p, n as int, m);
    let x = penalty(ws, slots.len() as int);
    assert forall|i: int, j: int| 0 <= i < m && 0 <= j < m implies #[trigger] padded(cost)(big_p[i], j) == wish_costs(
        ws,
        slots,
        n,
    )(i, j) by {
        if i < n {
            assert(big_p[i] == p[i]);
            assert(0 <= p[i] < n);
            assert(pw[p[i]]@ == ws[i]@);
            assert(row_ints(cost[p[i]]@) == cost_row(pw[p[i]]@, slots, n, x));
            if 0 <= j < cost[p[i]]@.len() {
                assert(row_ints(cost[p[i]]@)[j] == cost[p[i]]@[j] as int);
            }
        } else {
            assert(big_p[i] == i);
        }
    }
}

/// `result` gives each participant the slot of a seat in a cheapest assignment of the
/// participants to the seats (participants left without a seat, when there are more of them
/// than seats, count as in the first slot).
pub open spec fn is_assignment(wishes: Seq<Vec<i32>>, slots: Seq<(u32, u32)>, result: Seq<usize>) -> bool {
    let n = wishes.len();
    let cols = total_seats(slots, n as usize);
    &&& result.len() == n
    &&& forall|i: int| 0 <= i < n ==> #[trigger] result[i] < slots.len()
    &&& n > 0 ==> exists|sigma: Seq<int>|
        #[trigger] is_optimal(wish_costs(wishes, slots, n as usize), sigma, max_int(n as int, cols))
            && forall|i: int|
            0 <= i < n ==> #[trigger] result[i] == slot_of(restrict(sigma, n as int, cols)[i], seat_counts(slots, n as usize))
}

/// The participants among the first `k` that `result` puts in slot `j`.
pub(crate) open spec fn slot_members(result: Seq<usize>, j: int, k: int) -> Set<int> {
    Set::new(|i: int| 0 <= i < k && result[i] == j)
}

pub(crate) proof fn lemma_slot_members(result: Seq<usize>, j: int, k: int)
    requires
        0 <= k <= result.len(),
    ensures
        slot_members(result, j, k).finite(),
        slot_members(result, j, k).len() == count_in_slot(result, j, k),
    decreases k,
{
    if k == 0 {
        assert(slot_members(result, j, k) =~= Set::empty());
    } else {
        lemma_slot_members(result, j, k - 1);
        if result[k - 1] == j {
            assert(slot_members(result, j, k) =~= slot_members(result, j, k - 1).insert(k - 1));
        } else {
            assert(slot_members(result, j, k) =~= slot_members(result, j, k - 1));
        }
    }
}

/// No slot is given more participants than it has seats, and a slot never has more seats
/// than its most: the seats go one participant each. The one exception is the first slot
/// when there are more participants than seats, since it also takes those left over.
pub proof fn lemma_slot_capacity(wishes: Seq<Vec<i32>>, slots: Seq<(u32, u32)>, result: Seq<usize>, j: int)
    requires
        is_assignment(wishes, slots, result),
        0 <= j < slots.len(),
        j > 0 || wishes.len() <= total_seats(slots, wishes.len() as usize),
    ensures
        count_in_slot(result, j, wishes.len() as int) <= seat_counts(slots, wishes.len() as usize)[j],
        seat_counts(slots, wishes.len() as usize)[j] <= slots[j].1,
{
    let n = wishes.len() as int;
    let counts = seat_counts(slots, n as usize);
    let cols = total_seats(slots, n as usize);
    lemma_slot_members(result, j, n);
    let s = slot_members(result, j, n);
    if n > 0 {
        let sigma = choose|sigma: Seq<int>|
            #[trigger] is_optimal(wish_costs(wishes, slots, n as usize), sigma, max_int(n, cols))
                && forall|i: int|
                0 <= i < n ==> #[trigger] result[i] == slot_of(restrict(sigma, n, cols)[i], counts);
        let m = max_int(n, cols);
        let f = |i: int| sigma[i];
        let lo = prefix_sum(counts, j);
        let hi = prefix_sum(counts, j + 1);
        assert(hi == lo + counts[j]);
        assert forall|i: int| #[trigger] s.contains(i) implies lo <= sigma[i] < hi by {
            assert(result[i] == slot_of(restrict(sigma, n, cols)[i], counts));
            assert(0 <= sigma[i] < m);
            if sigma[i] >= cols {
                assert(restrict(sigma, n, cols)[i] == -1);
                assert(slot_of(-1, counts) == 0);
                assert(false);
            }
            lemma_slot_of_block(sigma[i], counts, j);
        }
        assert(vstd::relations::injective_on(f, s)) by {
            assert forall|a: int, b: int| s.contains(a) && s.contains(b) && #[trigger] f(a) == #[trigger] f(b)
                implies a == b by {
                if a != b {
                    assert(sigma[a] != sigma[b]);
                }
            }
        }
        vstd::set_lib::lemma_map_size(s, s.map(f), f);
        vstd::set_lib::lemma_int_range(lo, hi);
        assert(s.map(f).subset_of(vstd::set_lib::set_int_range(lo, hi)));
        vstd::set_lib::lemma_len_subset(s.map(f), vstd::set_lib::set_int_range(lo, hi));
    }
}

/// The inputs the assignment accepts: no more participants than an `i32` counts, few enough
/// slots that every cost stays within the solver's range (`costs_fit`), one wish value per slot at least
/// (each squared an `i32`), seats counted by an `i32`, and at least one seat when there are
/// participants.
pub open spec fn assignable(wishes: Seq<Vec<i32>>, slots: Seq<(u32, u32)>) -> bool {
    &&& wishes.len() <= i32::MAX
    &&& costs_fit(slots.len() as int)
    &&& valid_wishes(wishes, slots.len() as int)
    &&& total_seats(slots, wishes.len() as usize) <= i32::MAX
    &&& wishes.len() == 0 || total_seats(slots, wishes.len() as usize) > 0
}

/// A copy of a row of wishes.
pub(crate) fn copy_row(v: &Vec<i32>) -> (r: Vec<i32>)
    ensures
        r@ == v@,
{
    let mut r: Vec<i32> = Vec::new();
    let mut i: usize = 0;
    while i < v.len()
        invariant
            i <= v.len(),
            r@ == v@.take(i as int),
        decreases v.len() - i,
    {
        r.push(v[i]);
        i = i + 1;
        assert(r@ =~= v@.take(i as int));
    }
    assert(v@.take(v.len() as int) =~= v@);
    r
}

/// Runs the assignment with participant `i` placed at row `perm[i]` of the cost matrix, and
/// returns the slot of each participant in the given order: the slots of a cheapest
/// assignment of the participants to the seats (seats past the last one, when there are
/// more participants than seats, count as the first slot).
pub fn assign_with_permutation(wishes: &[Vec<i32>], slots: &[(u32, u32)], perm: &[usize]) -> (result: Vec<usize>)
    requires
        perm.len() == wishes.len(),
        is_permutation(usize_ints(perm@), wishes.len() as int),
        assignable(wishes@, slots@),
    ensures
        is_assignment(wishes@, slots@, result@),
{
    let n = wishes.len();
    if n == 0 {
        return Vec::new();
    }
    let ghost p = usize_ints(perm@);
    let ghost ws = wishes@;
    // Row perm[i] holds the wishes of participant i.
    let mut permuted: Vec<Vec<i32>> = Vec::new();
    let mut k: usize = 0;
    while k < n
        invariant
            k <= n,
            permuted.len() == k,
        decreases n - k,
    {
        permuted.push(Vec::new());
        k = k + 1;
    }
    let mut i: usize = 0;
    while i < n
        invariant
            i <= n,
            n == wishes.len(),
            n == perm.len(),
            p == usize_ints(perm@),
            ws == wishes@,
            is_permutation(p, n as int),
            permuted.len() == n,
            forall|q: int| 0 <= q < i ==> #[trigger] permuted@[p[q]]@ == ws[q]@,
        decreases n - i,
    {
        let row = copy_row(&wishes[i]);
        let target = perm[i];
        assert(p[i as int] == target);
        let ghost before = permuted@;
        permuted.set(target, row);
        assert forall|q: int| 0 <= q <= i implies #[trigger] permuted@[p[q]]@ == ws[q]@ by {
            if q < i {
                assert(p[q] != p[i as int]);
                assert(permuted@[p[q]] == before[p[q]]);
            }
        }
        i = i + 1;
    }
    let ghost pw = permuted@;
    proof {
        lemma_permuted_wishes(ws, pw, p, n as int, slots.len() as int);
    }
    let ghost x = penalty(ws, slots.len() as int);
    assert(penalty(pw, slots.len() as int) == x);
    let cost = build_cost_matrix(&permuted, slots, n);
    let ghost cols = total_seats(slots@, n);
    let ghost counts = seat_counts(slots@, n);
    proof {
        assert forall|r: int| 0 <= r < n implies #[trigger] cost[r]@.len() == cols by {
            assert(row_ints(cost[r]@).len() == cost_row(pw[r]@, slots@, n, x).len());
            crate::assignment::lemma_cost_row_len(pw[r]@, slots@, n, x);
        }
        assert forall|q: int| 0 <= q < counts.len() implies #[trigger] counts[q] >= 0 by {}
    }
    let ghost m = max_int(n as int, cols);
    assert(n_rows(cost@) == n);
    assert(n_cols(cost@) == cols) by {
        assert(cost[0]@.len() == cols);
    }
    assert(side(cost@) == m);
    assert(valid_costs(cost@)) by {
        assert forall|w: int| 0 <= w < cost@.len() implies #[trigger] cost@[w].len() <= side(cost@) by {
            assert(cost[w]@.len() == cols);
        }
        assert forall|w: int, j: int| 0 <= w < cost@.len() && 0 <= j < cost@[w].len() implies -MAX_COST
            <= #[trigger] cost@[w]@[j] <= MAX_COST by {
            assert(0 <= cost[w]@[j] <= MAX_COST);
        }
    }
    let assignment = hungarian(&cost);
    let ghost sp = choose|sigma: Seq<int>|
        #[trigger] is_optimal(padded(cost@), sigma, m) && as_ints(assignment@) == restrict(sigma, n as int, cols);
    assert(is_optimal(padded(cost@), sp, m) && as_ints(assignment@) == restrict(sp, n as int, cols));
    assert(assignment.len() == n) by {
        assert(as_ints(assignment@).len() == n);
    }
    proof {
        assert forall|q: int| 0 <= q < assignment.len() implies placed(#[trigger] assignment[q] as int, counts) by {
            assert(as_ints(assignment@)[q] == assignment[q] as int);
            assert(0 <= sp[q] < m);
            if sp[q] < cols {
                lemma_placed(sp[q], counts);
            } else {
                assert(counts.len() > 0) by {
                    if counts.len() == 0 {
                        assert(cols == 0);
                    }
                }
                assert(counts[0] >= 0);
            }
        }
    }
    let slot_indices = assignment_to_slots(&assignment, slots, n);
    let mut result: Vec<usize> = Vec::new();
    let mut i: usize = 0;
    while i < n
        invariant
            i <= n,
            n == perm.len(),
            p == usize_ints(perm@),
            is_permutation(p, n as int),
            slot_indices.len() == n,
            forall|q: int| 0 <= q < n ==> #[trigger] slot_indices[q] < slots.len(),
            result.len() == i,
            forall|q: int| 0 <= q < i ==> #[trigger] result[q] == slot_indices[p[q]],
        decreases n - i,
    {
        assert(p[i as int] == perm[i as int]);
        result.push(slot_indices[perm[i]]);
        i = i + 1;
    }
    proof {
        lemma_costs_reordered(ws, pw, cost@, slots@, p, n, m);
        let big_p = extend_perm(p, m);
        lemma_optimal_reorder(wish_costs(ws, slots@, n), padded(cost@), big_p, sp, m);
        let sigma = compose(sp, big_p);
        assert forall|ii: int| 0 <= ii < n implies #[trigger] result[ii] == slot_of(
            restrict(sigma, n as int, cols)[ii],
            counts,
        ) by {
            assert(big_p[ii] == p[ii]);
            assert(0 <= p[ii] < n);
            assert(sigma[ii] == sp[p[ii]]);
            assert(as_ints(assignment@)[p[ii]] == assignment[p[ii]] as int);
            assert(slot_indices[p[ii]] == slot_of(assignment[p[ii]] as int, counts));
        }
        assert(is_optimal(wish_costs(ws, slots@, n), sigma, m));
        assert(is_assignment(ws, slots@, result@));
    }
    result
}

/// The wish vectors of the participants.
pub open spec fn wish_vecs(ps: Seq<ParsedParticipant>) -> Seq<Vec<i32>> {
    ps.map_values(|p: ParsedParticipant| p.wish)
}

/// The quotas `(vmin, vmax)` of the slots.
pub open spec fn slot_data(slots: Seq<Slot>) -> Seq<(u32, u32)> {
    slots.map_values(|s: Slot| (s.vmin, s.vmax))
}

/// Whether two lists of wish vectors hold the same values.
pub open spec fn same_views(a: Seq<Vec<i32>>, b: Seq<Vec<i32>>) -> bool {
    a.len() == b.len() && forall|i: int| 0 <= i < a.len() ==> #[trigger] a[i]@ == b[i]@
}

/// The assignment depends on the wish values only.
proof fn lemma_same_views(a: Seq<Vec<i32>>, b: Seq<Vec<i32>>, slots: Seq<(u32, u32)>, r: Seq<usize>)
    requires
        same_views(a, b),
    ensures
        assignable(a, slots) == assignable(b, slots),
        is_assignment(a, slots, r) == is_assignment(b, slots, r),
{
    let id = Seq::new(a.len(), |i: int| i);
    lemma_max_sq_all_same_rows(a, b, id, id);
    let n = a.len() as usize;
    assert(wish_costs(a, slots, n) =~= wish_costs(b, slots, n));
    if valid_wishes(a, slots.len() as int) {
        assert forall|r: int, k: int| 0 <= r < b.len() && 0 <= k < b[r]@.len() implies #[trigger] sq(b[r]@[k]) <= i32::MAX by {
            assert(a[r]@ == b[r]@);
            assert(sq(a[r]@[k]) <= i32::MAX);
        }
        assert forall|r: int| 0 <= r < b.len() implies #[trigger] b[r]@.len() >= slots.len() by {
            assert(a[r]@ == b[r]@);
        }
    }
    if valid_wishes(b, slots.len() as int) {
        assert forall|r: int, k: int| 0 <= r < a.len() && 0 <= k < a[r]@.len() implies #[trigger] sq(a[r]@[k]) <= i32::MAX by {
            assert(a[r]@ == b[r]@);
            assert(sq(b[r]@[k]) <= i32::MAX);
        }
        assert forall|r: int| 0 <= r < a.len() implies #[trigger] a[r]@.len() >= slots.len() by {
            assert(a[r]@ == b[r]@);
        }
    }
}

/// `rand::random_range(0..=i)`: a random index from 0 to `i`. Only that bound is stated; which
/// index comes is left to chance.
#[verifier::external_body]
fn random_index_up_to(i: usize) -> (j: usize)
    ensures
        j <= i,
{
    rand::random_range(0..=i)
}

/// A random permutation of `0..n` (Fisher-Yates).
pub fn random_permutation(n: usize) -> (p: Vec<usize>)
    ensures
        p.len() == n,
        is_permutation(usize_ints(p@), n as int),
{
    let mut p: Vec<usize> = Vec::new();
    let mut k: usize = 0;
    while k < n
        invariant
            k <= n,
            p.len() == k,
            forall|q: int| 0 <= q < k ==> #[trigger] p@[q] == q,
        decreases n - k,
    {
        p.push(k);
        k = k + 1;
    }
    let mut i: usize = n;
    while i > 1
        invariant
            i <= n,
            p.len() == n,
            is_permutation(usize_ints(p@), n as int),
        decreases i,
    {
        i = i - 1;
        let j = random_index_up_to(i);
        let a = p[i];
        let b = p[j];
        let ghost before = usize_ints(p@);
        p.set(i, b);
        p.set(j, a);
        proof {
            let after = usize_ints(p@);
            assert forall|x: int| 0 <= x < n implies 0 <= #[trigger] after[x] < n by {
                let src = if x == i { j as int } else if x == j { i as int } else { x };
                assert(after[x] == before[src]);
                assert(0 <= before[src] < n);
            }
            assert forall|x: int, y: int| 0 <= x < n && 0 <= y < n && x != y implies #[trigger] after[x]
                != #[trigger] after[y] by {
                let src = |z: int| if z == i { j as int } else if z == j { i as int } else { z };
                assert(after[x] == before[src(x)]);
                assert(after[y] == before[src(y)]);
                assert(src(x) != src(y));
            }
        }
    }
    proof {
        if n <= 1 {
        }
    }
    p
}

/// Runs the assignment for the participants, in a random order: the slot of each participant
/// (same order as the input), from a cheapest assignment of the participants to the seats.
pub fn compute_assignment(slots: &[Slot], participants: &[ParsedParticipant]) -> (result: Vec<usize>)
    requires
        assignable(wish_vecs(participants@), slot_data(slots@)),
    ensures
        is_assignment(wish_vecs(participants@), slot_data(slots@), result@),
{
    let mut slots_data: Vec<(u32, u32)> = Vec::new();
    let mut k: usize = 0;
    while k < slots.len()
        invariant
            k <= slots.len(),
            slots_data@ == slot_data(slots@).take(k as int),
        decreases slots.len() - k,
    {
        slots_data.push((slots[k].vmin, slots[k].vmax));
        k = k + 1;
        assert(slots_data@ =~= slot_data(slots@).take(k as int));
    }
    assert(slot_data(slots@).take(slots.len() as int) =~= slot_data(slots@));
    let n = participants.len();
    let mut wishes: Vec<Vec<i32>> = Vec::new();
    let mut k: usize = 0;
    while k < n
        invariant
            k <= n,
            n == participants.len(),
            wishes.len() == k,
            forall|q: int| 0 <= q < k ==> #[trigger] wishes@[q]@ == participants@[q].wish@,
        decreases n - k,
    {
        let row = copy_row(&participants[k].wish);
        wishes.push(row);
        k = k + 1;
    }
    proof {
        assert(same_views(wishes@, wish_vecs(participants@)));
    }
    let perm = random_permutation(n);
    proof {
        lemma_same_views(wishes@, wish_vecs(participants@), slots_data@, Seq::empty());
    }
    let result = assign_with_permutation(wishes.as_slice(), slots_data.as_slice(), perm.as_slice());
    proof {
        lemma_same_views(wishes@, wish_vecs(participants@), slots_data@, result@);
    }
    result
}

/// The quotas of the slots of a parse.
pub open spec fn model_slot_data(m: ParseModel) -> Seq<(u32, u32)> {
    m.slots.map_values(|s: (Seq<char>, u32, u32)| (s.1, s.2))
}

/// A text whose clean parse the assignment can run on: not more participants than an `i32`
/// counts, few enough slots that every cost stays within the solver's range (`costs_fit`),
/// each wish squared an `i32`, and seats counted by an `i32`.
pub open spec fn compute_ready(text: Seq<char>) -> bool {
    let m = parse_spec(text);
    m.errors.len() == 0 ==> {
        &&& m.participants.len() <= i32::MAX
        &&& costs_fit(m.slots.len() as int)
        &&& forall|i: int, k: int|
            0 <= i < m.participants.len() && 0 <= k < m.participants[i].1.len() ==> #[trigger] sq(m.participants[i].1[k])
                <= i32::MAX
        &&& total_seats(model_slot_data(m), m.participants.len() as usize) <= i32::MAX
    }
}

/// Whether the assignment can run on the clean parse of `text` (see `compute_ready`).
pub fn can_compute(text: &str) -> (b: bool)
    ensures
        b == compute_ready(text@),
{
    let parsed = parse(text);
    let ghost m = parse_spec(text@);
    if parsed.errors.len() > 0 {
        return true;
    }
    let n = parsed.participants.len();
    if n > 0x7fff_ffff {
        return false;
    }
    let n_slots = parsed.slots.len();
    if n_slots > 0x10_0000 {
        assert(n_slots * n_slots > 0x100_0000_0000) by (nonlinear_arith)
            requires
                n_slots > 0x10_0000,
        ;
        return false;
    }
    assert(n_slots * n_slots <= 0x100_0000_0000) by (nonlinear_arith)
        requires
            n_slots <= 0x10_0000,
    ;
    let sq_slots: u64 = (n_slots as u64) * (n_slots as u64);
    if sq_slots + 2 * 0x7fff_ffff > 0x100_0000_0000 {
        return false;
    }
    assert(m.errors.len() == 0);
    let mut i: usize = 0;
    while i < n
        invariant
            i <= n,
            n == m.participants.len(),
            n <= 0x7fff_ffff,
            costs_fit(parsed.slots.len() as int),
            m == parse_spec(text@),
            m.errors.len() == 0,
            parsed.matches(m),
            forall|r: int, k: int| 0 <= r < i && 0 <= k < m.participants[r].1.len() ==> #[trigger] sq(
                m.participants[r].1[k],
            ) <= i32::MAX,
        decreases n - i,
    {
        let w = &parsed.participants[i].wish;
        assert(w@ == m.participants[i as int].1);
        let mut k: usize = 0;
        while k < w.len()
            invariant
                k <= w.len(),
                i < n,
                n == m.participants.len(),
                m == parse_spec(text@),
                m.errors.len() == 0,
                w@ == m.participants[i as int].1,
                forall|j: int| 0 <= j < k ==> #[trigger] sq(w@[j]) <= i32::MAX,
            decreases w.len() - k,
        {
            let v = w[k] as i64;
            assert(-0x8000_0000 <= v < 0x8000_0000);
            assert(0 <= v * v <= 0x4000_0000_0000_0000) by (nonlinear_arith)
                requires
                    -0x8000_0000 <= v < 0x8000_0000,
            ;
            let vv: i64 = v * v;
            assert(vv == sq(w@[k as int]));
            if vv > 0x7fff_ffff {
                assert(sq(m.participants[i as int].1[k as int]) > i32::MAX);
                return false;
            }
            k = k + 1;
        }
        i = i + 1;
    }
    let ghost data = model_slot_data(m);
    let mut total: u64 = 0;
    let mut j: usize = 0;
    while j < parsed.slots.len()
        invariant
            j <= parsed.slots.len(),
            costs_fit(parsed.slots.len() as int),
            parsed.slots.len() <= 0x10_0000,
            parsed.matches(m),
            m == parse_spec(text@),
            m.errors.len() == 0,
            n <= 0x7fff_ffff,
            forall|r: int, k: int| 0 <= r < n && 0 <= k < m.participants[r].1.len() ==> #[trigger] sq(
                m.participants[r].1[k],
            ) <= i32::MAX,
            n == m.participants.len(),
            data == model_slot_data(m),
            total == prefix_sum(seat_counts(data, n), j as int),
            total <= j * 0xffff_ffff,
        decreases parsed.slots.len() - j,
    {
        let s = &parsed.slots[j];
        assert(data[j as int] == (s.vmin, s.vmax));
        let seats_j: u32 = if s.vmax < n as u32 { s.vmax } else { n as u32 };
        total = total + seats_j as u64;
        j = j + 1;
    }
    total <= 0x7fff_ffff
}

/// The participants' mails and wishes, as the report takes them.
pub open spec fn result_pairs(ps: Seq<ParsedParticipant>) -> Seq<(String, Vec<i32>)> {
    ps.map_values(|p: ParsedParticipant| (p.mail, p.wish))
}

proof fn lemma_vmax_sum_zero(slots: Seq<(Seq<char>, u32, u32)>)
    requires
        forall|i: int| 0 <= i < slots.len() ==> #[trigger] slots[i].2 == 0,
    ensures
        vmax_sum(slots) == 0,
    decreases slots.len(),
{
    if slots.len() > 0 {
        lemma_vmax_sum_zero(slots.drop_last());
        assert(slots.last().2 == 0);
    }
}

proof fn lemma_total_seats_pos(counts: Seq<int>, j: int, k: int)
    requires
        0 <= j < k <= counts.len(),
        counts[j] > 0,
        forall|i: int| 0 <= i < counts.len() ==> #[trigger] counts[i] >= 0,
    ensures
        prefix_sum(counts, k) > 0,
    decreases k,
{
    if k - 1 > j {
        lemma_total_seats_pos(counts, j, k - 1);
    } else {
        lemma_prefix_sum_nonneg(counts, k - 1);
    }
}

proof fn lemma_prefix_sum_nonneg(counts: Seq<int>, k: int)
    requires
        0 <= k <= counts.len(),
        forall|i: int| 0 <= i < counts.len() ==> #[trigger] counts[i] >= 0,
    ensures
        prefix_sum(counts, k) >= 0,
    decreases k,
{
    if k > 0 {
        lemma_prefix_sum_nonneg(counts, k - 1);
    }
}

proof fn lemma_max_values_nonneg(acc: Option<int>, s: Seq<i32>)
    requires
        acc matches Some(a) ==> a >= 0,
        forall|k: int| 0 <= k < s.len() ==> #[trigger] s[k] >= 0,
    ensures
        max_values(acc, s) matches Some(a) ==> a >= 0,
    decreases s.len(),
{
    if s.len() > 0 {
        lemma_max_values_nonneg(acc, s.drop_last());
    }
}

proof fn lemma_max_all_nonneg(ps: Seq<(String, Vec<i32>)>, k: int)
    requires
        0 <= k <= ps.len(),
        forall|i: int, j: int| 0 <= i < ps.len() && 0 <= j < ps[i].1@.len() ==> #[trigger] ps[i].1@[j] >= 0,
    ensures
        max_all(ps, k) matches Some(a) ==> a >= 0,
    decreases k,
{
    if k > 0 {
        lemma_max_all_nonneg(ps, k - 1);
        assert forall|j: int| 0 <= j < ps[k - 1].1@.len() implies #[trigger] ps[k - 1].1@[j] >= 0 by {}
        lemma_max_values_nonneg(max_all(ps, k - 1), ps[k - 1].1@);
    }
}

proof fn lemma_score_bound(ps: Seq<(String, Vec<i32>)>, result: Seq<usize>, k: int)
    requires
        0 <= k <= result.len(),
        forall|i: int| 0 <= i < k ==> #[trigger] result[i] < ps[i].1@.len(),
        forall|i: int, j: int| 0 <= i < ps.len() && 0 <= j < ps[i].1@.len() ==> sq(#[trigger] ps[i].1@[j]) <= i32::MAX,
        k <= ps.len(),
    ensures
        score(ps, result, k) <= k * 0x7fff_ffff,
    decreases k,
{
    if k > 0 {
        lemma_score_bound(ps, result, k - 1);
        let w = ps[k - 1].1@[result[k - 1] as int];
        assert(sq(w) <= i32::MAX);
        assert(wish_at(ps, k - 1, result[k - 1] as int) == w as int);
    }
}

/// Parses the text, runs the assignment and formats its results; the parse errors when there
/// are any.
pub fn compute_and_format(text: &str) -> (r: Result<String, Vec<ParseError>>)
    requires
        compute_ready(text@),
    ensures
        match r {
            Err(errs) => parse_spec(text@).errors.len() > 0 && errs@.map_values(|e: ParseError| error_view(e))
                == parse_spec(text@).errors,
            Ok(s) => parse_spec(text@).errors.len() == 0 && exists|parsed: ParseResult, result: Seq<usize>|
                parsed.matches(parse_spec(text@)) && #[trigger] is_assignment(
                    wish_vecs(parsed.participants@),
                    slot_data(parsed.slots@),
                    result,
                ) && s@ == report(parsed.slots@, result_pairs(parsed.participants@), result),
        },
{
    let parsed = parse(text);
    let ghost m = parse_spec(text@);
    proof {
        lemma_parse_spec_inv(text@);
    }
    if parsed.errors.len() > 0 {
        return Err(parsed.errors);
    }
    let ghost ps0 = parsed.participants@;
    let ghost sl0 = parsed.slots@;
    let ghost parsed0 = parsed;
    let n = parsed.participants.len();
    proof {
        assert(m.errors.len() == 0);
        assert(ps0.len() == m.participants.len());
        assert(slot_data(sl0) =~= model_slot_data(m)) by {
            assert forall|i: int| 0 <= i < sl0.len() implies #[trigger] slot_data(sl0)[i] == model_slot_data(m)[i] by {
                assert(m.slots[i] == (sl0[i].name@, sl0[i].vmin, sl0[i].vmax));
            }
        }
        let wv = wish_vecs(ps0);
        assert forall|r: int| 0 <= r < wv.len() implies #[trigger] wv[r]@ == m.participants[r].1 by {
            assert(m.participants[r] == (ps0[r].mail@, ps0[r].wish@));
        }
        assert forall|r: int| 0 <= r < wv.len() implies #[trigger] wv[r]@.len() >= sl0.len() by {
            assert(wv[r]@ == m.participants[r].1);
        }
        assert forall|r: int, k: int| 0 <= r < wv.len() && 0 <= k < wv[r]@.len() implies #[trigger] sq(wv[r]@[k])
            <= i32::MAX by {
            assert(wv[r]@ == m.participants[r].1);
            assert(sq(m.participants[r].1[k]) <= i32::MAX);
        }
        if n > 0 {
            let data = slot_data(sl0);
            let counts = seat_counts(data, n);
            if forall|i: int| 0 <= i < m.slots.len() ==> #[trigger] m.slots[i].2 == 0 {
                lemma_vmax_sum_zero(m.slots);
                assert(false);
            }
            let j = choose|i: int| 0 <= i < m.slots.len() && #[trigger] m.slots[i].2 != 0;
            assert(data[j] == (m.slots[j].1, m.slots[j].2));
            assert(counts[j] > 0);
            assert forall|i: int| 0 <= i < counts.len() implies #[trigger] counts[i] >= 0 by {}
            lemma_total_seats_pos(counts, j, sl0.len() as int);
        }
        assert(assignable(wv, slot_data(sl0)));
    }
    let result = compute_assignment(parsed.slots.as_slice(), parsed.participants.as_slice());
    let ghost rs = result@;
    // Hand the participants over to the report as (mail, wish) pairs.
    let slots = parsed.slots;
    let mut rest = parsed.participants;
    let mut pairs: Vec<(String, Vec<i32>)> = Vec::new();
    while rest.len() > 0
        invariant
            pairs@ + result_pairs(rest@) == result_pairs(ps0),
        decreases rest.len(),
    {
        let ghost before = rest@;
        let p = rest.remove(0);
        assert(result_pairs(before) =~= seq![(p.mail, p.wish)] + result_pairs(rest@));
        let ghost pp = pairs@;
        pairs.push((p.mail, p.wish));
        assert(pairs@ + result_pairs(rest@) =~= pp + result_pairs(before));
    }
    assert(pairs@ =~= result_pairs(ps0));
    proof {
        let pv = pairs@;
        assert forall|i: int, j: int| 0 <= i < pv.len() && 0 <= j < pv[i].1@.len() implies #[trigger] pv[i].1@[j] >= 0 by {
            assert(pv[i].1@ == m.participants[i].1);
        }
        assert forall|i: int, j: int| 0 <= i < pv.len() && 0 <= j < pv[i].1@.len() implies sq(#[trigger] pv[i].1@[j])
            <= i32::MAX by {
            assert(pv[i].1@ == m.participants[i].1);
            assert(sq(m.participants[i].1[j]) <= i32::MAX);
        }
        lemma_max_all_nonneg(pv, pv.len() as int);
        assert forall|pi: int| 0 <= pi < rs.len() implies #[trigger] rs[pi] < slots@.len() && rs[pi] < pv[pi].1@.len() by {
            assert(pv[pi].1@ == m.participants[pi].1);
        }
        lemma_score_bound(pv, rs, rs.len() as int);
        assert(rs.len() * 0x7fff_ffff <= 0x7fff_ffff * 0x7fff_ffff) by (nonlinear_arith)
            requires
                rs.len() <= 0x7fff_ffff,
        ;
        assert(reportable(slots@, pv, rs));
    }
    let text_out = format_results(slots.as_slice(), pairs.as_slice(), result.as_slice());
    proof {
        assert(parsed0.matches(m));
        assert(is_assignment(wish_vecs(parsed0.participants@), slot_data(parsed0.slots@), rs));
    }
    Ok(text_out)
}

} // verus!
