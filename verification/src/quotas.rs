//! The assignment against the slots' quotas: when the participants can be arranged with every
//! slot between its least and its most, the assignment is such an arrangement, and no such
//! arrangement has a smaller sum of squared wishes.
use vstd::prelude::*;
use vstd::set_lib::{set_int_range, lemma_int_range, lemma_len_subset, lemma_map_size, lemma_subset_equality};
use crate::format::count_in_slot;
use crate::pipeline::{total_seats, wish_costs, is_assignment, assignable, slot_members, lemma_slot_members, lemma_slot_capacity};
use crate::hungarian::restrict;
use crate::solver::{total_cost, is_optimal};
use crate::permutation::{is_permutation, lemma_permutation_onto};
use crate::assignment::{
    cost_row, seat_counts, seats, prefix_sum, slot_of, sq, penalty, max_int, lemma_slot_of_block, lemma_placed,
    lemma_prefix_sum_drop_first, lemma_prefix_sum_prefix,
};

verus! {

proof fn lemma_prefix_sum_mono(counts: Seq<int>, j: int, k: int)
    requires
        0 <= j <= k <= counts.len(),
        forall|i: int| 0 <= i < counts.len() ==> counts[i] >= 0,
    ensures
        prefix_sum(counts, j) <= prefix_sum(counts, k),
    decreases k - j,
{
    if j < k {
        lemma_prefix_sum_mono(counts, j, k - 1);
    }
}

/// A column inside slot `j`'s block lands in slot `j`.
proof fn lemma_slot_of_in_block(c: int, counts: Seq<int>, j: int)
    requires
        0 <= j < counts.len(),
        forall|i: int| 0 <= i < counts.len() ==> counts[i] >= 0,
        prefix_sum(counts, j) <= c < prefix_sum(counts, j + 1),
    ensures
        slot_of(c, counts) == j,
    decreases counts.len(),
{
    assert(prefix_sum(counts, 0) == 0);
    assert(prefix_sum(counts, 1) == counts[0]);
    if j > 0 {
        lemma_prefix_sum_mono(counts, 1, j);
        lemma_prefix_sum_drop_first(counts, j);
        lemma_prefix_sum_drop_first(counts, j + 1);
        lemma_slot_of_in_block(c - counts[0], counts.drop_first(), j - 1);
    }
}

/// The cost of seat `r` of slot `j`: the squared wish, plus the penalty past the slot's least.
proof fn lemma_cost_row_block(wish: Seq<i32>, slots: Seq<(u32, u32)>, n: usize, x: int, j: int, r: int)
    requires
        0 <= j < slots.len(),
        0 <= r < seats(slots[j], n),
    ensures
        cost_row(wish, slots, n, x).len() == prefix_sum(seat_counts(slots, n), slots.len() as int),
        cost_row(wish, slots, n, x)[prefix_sum(seat_counts(slots, n), j) + r] == sq(wish[j]) + (if r < slots[j].0 {
            0
        } else {
            x
        }),
    decreases slots.len(),
{
    let k = slots.len() as int;
    let counts = seat_counts(slots, n);
    let front = slots.drop_last();
    let fc = seat_counts(front, n);
    crate::assignment::lemma_cost_row_len(wish, slots, n, x);
    crate::assignment::lemma_cost_row_len(wish, front, n, x);
    assert forall|i: int| 0 <= i < k - 1 implies counts[i] == fc[i] by {
        assert(front[i] == slots[i]);
    }
    lemma_prefix_sum_prefix(counts, fc, k - 1);
    let a = cost_row(wish, front, n, x);
    let b = crate::assignment::slot_columns(sq(wish[k - 1]), slots.last().0 as int, seats(slots.last(), n), x);
    assert(cost_row(wish, slots, n, x) == a + b);
    assert(a.len() == prefix_sum(counts, k - 1));
    let i0 = prefix_sum(counts, j) + r;
    assert(counts[j] == seats(slots[j], n));
    assert(prefix_sum(counts, j + 1) == prefix_sum(counts, j) + counts[j]);
    if j < k - 1 {
        lemma_cost_row_block(wish, front, n, x, j, r);
        lemma_prefix_sum_prefix(counts, fc, j);
        lemma_prefix_sum_prefix(counts, fc, j + 1);
        assert forall|i: int| 0 <= i < fc.len() implies fc[i] >= 0 by {
            assert(fc[i] == seats(front[i], n));
        }
        lemma_prefix_sum_mono(fc, j + 1, k - 1);
        lemma_prefix_sum_mono(fc, 0, j);
        assert(prefix_sum(fc, 0) == 0);
        assert(front[j] == slots[j]);
        assert(i0 < a.len());
        assert((a + b)[i0] == a[i0]);
    } else {
        assert(slots.last() == slots[j]);
        assert(i0 == a.len() + r);
        assert((a + b)[i0] == b[r]);
    }
}

proof fn lemma_count_mono(a: Seq<usize>, j: int, i: int, k: int)
    requires
        0 <= i <= k,
    ensures
        count_in_slot(a, j, i) <= count_in_slot(a, j, k),
    decreases k - i,
{
    if i < k {
        lemma_count_mono(a, j, i, k - 1);
    }
}

/// Among the first `k` participants, one in slot `j` has each rank below the slot's count.
proof fn lemma_rank_exists(a: Seq<usize>, j: int, r: int, k: int) -> (i: int)
    requires
        0 <= r < count_in_slot(a, j, k),
    ensures
        0 <= i < k,
        a[i] == j,
        count_in_slot(a, j, i) == r,
    decreases k,
{
    if r < count_in_slot(a, j, k - 1) {
        lemma_rank_exists(a, j, r, k - 1)
    } else {
        k - 1
    }
}

/// The number of participants before `i` in the same slot as `i`.
spec fn rank(a: Seq<usize>, i: int) -> int {
    count_in_slot(a, a[i] as int, i) as int
}

/// The seat that an arrangement gives participant `i`: the next free one of its slot.
spec fn seat_of(a: Seq<usize>, counts: Seq<int>, i: int) -> int {
    prefix_sum(counts, a[i] as int) + rank(a, i)
}

/// Distinct values, all in `0..m`, on the first `n` positions.
spec fn injective_into(p: Seq<int>, n: int, m: int) -> bool {
    &&& forall|i: int| 0 <= i < n ==> 0 <= #[trigger] p[i] < m
    &&& forall|i: int, k: int| 0 <= i < n && 0 <= k < n && i != k ==> #[trigger] p[i] != #[trigger] p[k]
}

/// `n` distinct values in `0..m` need `n <= m`, and when `n < m` some value of `0..m` is
/// missing.
proof fn lemma_pigeonhole(p: Seq<int>, n: int, m: int) -> (v: int)
    requires
        0 <= n,
        0 <= m,
        injective_into(p, n, m),
    ensures
        n <= m,
        n < m ==> 0 <= v < m && forall|i: int| 0 <= i < n ==> p[i] != v,
{
    let dom = set_int_range(0, n);
    let f = |i: int| p[i];
    let img = dom.map(f);
    let range = set_int_range(0, m);
    lemma_int_range(0, n);
    lemma_int_range(0, m);
    assert(vstd::relations::injective_on(f, dom));
    lemma_map_size(dom, img, f);
    assert(img.subset_of(range));
    lemma_len_subset(img, range);
    if n < m {
        if range.subset_of(img) {
            lemma_len_subset(range, img);
        }
        let v = choose|v: int| range.contains(v) && !img.contains(v);
        assert forall|i: int| 0 <= i < n implies p[i] != v by {
            assert(dom.contains(i));
            assert(img.contains(f(i)));
        }
        v
    } else {
        0
    }
}

/// Distinct values in `0..m` on the first positions extend to a permutation of `0..m`.
proof fn lemma_extend_permutation(p: Seq<int>, n: int, m: int) -> (q: Seq<int>)
    requires
        0 <= n <= m,
        n == p.len(),
        injective_into(p, n, m),
    ensures
        is_permutation(q, m),
        forall|i: int| 0 <= i < n ==> q[i] == p[i],
    decreases m - n,
{
    if n == m {
        p
    } else {
        let v = lemma_pigeonhole(p, n, m);
        let p2 = p.push(v);
        assert forall|i: int, k: int| 0 <= i < n + 1 && 0 <= k < n + 1 && i != k implies #[trigger] p2[i]
            != #[trigger] p2[k] by {
            if i < n && k < n {
                assert(p2[i] == p[i] && p2[k] == p[k]);
            }
        }
        let q = lemma_extend_permutation(p2, n + 1, m);
        assert forall|i: int| 0 <= i < n implies q[i] == p[i] by {
            assert(q[i] == p2[i]);
        }
        q
    }
}

/// Column `c` is one of the seats within its slot's least, which cost no penalty.
spec fn cheap(slots: Seq<(u32, u32)>, n: usize, c: int) -> bool {
    let counts = seat_counts(slots, n);
    let j = slot_of(c, counts);
    c - prefix_sum(counts, j) < slots[j].0
}

proof fn lemma_counts_nonneg(slots: Seq<(u32, u32)>, n: usize)
    ensures
        forall|i: int| 0 <= i < slots.len() ==> #[trigger] seat_counts(slots, n)[i] >= 0,
{
}

/// The cost of seat `c` for participant `i`: the squared wish for the seat's slot, plus the
/// penalty for a seat past the slot's least.
proof fn lemma_seat_cost(wishes: Seq<Vec<i32>>, slots: Seq<(u32, u32)>, i: int, c: int)
    requires
        0 <= i < wishes.len(),
        0 <= c < total_seats(slots, wishes.len() as usize),
    ensures
        0 <= slot_of(c, seat_counts(slots, wishes.len() as usize)) < slots.len(),
        wish_costs(wishes, slots, wishes.len() as usize)(i, c) == sq(
            wishes[i]@[slot_of(c, seat_counts(slots, wishes.len() as usize))],
        ) + (if cheap(slots, wishes.len() as usize, c) {
            0
        } else {
            penalty(wishes, slots.len() as int)
        }),
{
    let n = wishes.len() as usize;
    let counts = seat_counts(slots, n);
    lemma_counts_nonneg(slots, n);
    if slots.len() == 0 {
        assert(prefix_sum(counts, 0) == 0);
    }
    lemma_placed(c, counts);
    let j = slot_of(c, counts);
    lemma_slot_of_block(c, counts, j);
    assert(prefix_sum(counts, j + 1) == prefix_sum(counts, j) + counts[j]);
    lemma_cost_row_block(wishes[i]@, slots, n, penalty(wishes, slots.len() as int), j, c - prefix_sum(counts, j));
}

/// The squared wishes of the first `k` participants for the slots of their seats.
spec fn seat_penalty(wishes: Seq<Vec<i32>>, slots: Seq<(u32, u32)>, p: Seq<int>, k: int) -> int
    decreases k,
{
    if k <= 0 {
        0
    } else {
        seat_penalty(wishes, slots, p, k - 1) + sq(
            wishes[k - 1]@[slot_of(p[k - 1], seat_counts(slots, wishes.len() as usize))],
        )
    }
}

/// How many of the first `k` participants sit past their slot's least.
spec fn extra_count(slots: Seq<(u32, u32)>, n: usize, p: Seq<int>, k: int) -> int
    decreases k,
{
    if k <= 0 {
        0
    } else {
        extra_count(slots, n, p, k - 1) + (if cheap(slots, n, p[k - 1]) {
            0int
        } else {
            1int
        })
    }
}

/// The cost of seating the first `k` participants: their squared wishes plus one penalty per
/// seat past a slot's least.
proof fn lemma_total_cost_split(wishes: Seq<Vec<i32>>, slots: Seq<(u32, u32)>, p: Seq<int>, k: int)
    requires
        0 <= k <= wishes.len(),
        forall|i: int| 0 <= i < k ==> 0 <= #[trigger] p[i] < total_seats(slots, wishes.len() as usize),
    ensures
        total_cost(wish_costs(wishes, slots, wishes.len() as usize), p, k) == seat_penalty(wishes, slots, p, k)
            + penalty(wishes, slots.len() as int) * extra_count(slots, wishes.len() as usize, p, k),
    decreases k,
{
    if k > 0 {
        lemma_total_cost_split(wishes, slots, p, k - 1);
        lemma_seat_cost(wishes, slots, k - 1, p[k - 1]);
        let x = penalty(wishes, slots.len() as int);
        let e = extra_count(slots, wishes.len() as usize, p, k - 1);
        assert(x * (e + 1) == x * e + x) by (nonlinear_arith);
    }
}

/// Rows past the participants cost nothing.
proof fn lemma_total_cost_rows(wishes: Seq<Vec<i32>>, slots: Seq<(u32, u32)>, p: Seq<int>, m: int)
    requires
        wishes.len() <= m,
    ensures
        total_cost(wish_costs(wishes, slots, wishes.len() as usize), p, m) == total_cost(
            wish_costs(wishes, slots, wishes.len() as usize),
            p,
            wishes.len() as int,
        ),
    decreases m,
{
    if m > wishes.len() {
        lemma_total_cost_rows(wishes, slots, p, m - 1);
    }
}

/// The participants among the first `k` whose seat costs no penalty.
spec fn cheap_rows(slots: Seq<(u32, u32)>, n: usize, p: Seq<int>, k: int) -> Set<int> {
    Set::new(|i: int| 0 <= i < k && cheap(slots, n, p[i]))
}

proof fn lemma_cheap_rows(slots: Seq<(u32, u32)>, n: usize, p: Seq<int>, k: int)
    requires
        0 <= k,
    ensures
        cheap_rows(slots, n, p, k).finite(),
        cheap_rows(slots, n, p, k).len() + extra_count(slots, n, p, k) == k,
    decreases k,
{
    if k == 0 {
        assert(cheap_rows(slots, n, p, k) =~= Set::empty());
    } else {
        lemma_cheap_rows(slots, n, p, k - 1);
        if cheap(slots, n, p[k - 1]) {
            assert(cheap_rows(slots, n, p, k) =~= cheap_rows(slots, n, p, k - 1).insert(k - 1));
        } else {
            assert(cheap_rows(slots, n, p, k) =~= cheap_rows(slots, n, p, k - 1));
        }
    }
}

/// Changing the seat of one of the first `k` rows changes the cost by the difference.
proof fn lemma_total_cost_update(m: spec_fn(int, int) -> int, p: Seq<int>, k: int, i: int, v: int)
    requires
        0 <= i < k <= p.len(),
    ensures
        total_cost(m, p.update(i, v), k) == total_cost(m, p, k) - m(i, p[i]) + m(i, v),
    decreases k,
{
    if k - 1 > i {
        lemma_total_cost_update(m, p, k - 1, i, v);
    } else {
        lemma_total_cost_same(m, p, p.update(i, v), k - 1);
    }
}

proof fn lemma_total_cost_same(m: spec_fn(int, int) -> int, p: Seq<int>, q: Seq<int>, k: int)
    requires
        0 <= k,
        forall|i: int| 0 <= i < k ==> p[i] == q[i],
    ensures
        total_cost(m, p, k) == total_cost(m, q, k),
    decreases k,
{
    if k > 0 {
        lemma_total_cost_same(m, p, q, k - 1);
    }
}

/// An arrangement of `n` participants with every slot between its least and its most.
pub open spec fn within_quotas(slots: Seq<(u32, u32)>, a: Seq<usize>, n: int) -> bool {
    &&& a.len() == n
    &&& forall|i: int| 0 <= i < n ==> #[trigger] a[i] < slots.len()
    &&& forall|j: int| 0 <= j < slots.len() ==> slots[j].0 <= #[trigger] count_in_slot(a, j, n) <= slots[j].1
}

/// The sum of the squared wishes of the first `k` participants for their slots in `a`.
pub open spec fn total_penalty(wishes: Seq<Vec<i32>>, a: Seq<usize>, k: int) -> int
    decreases k,
{
    if k <= 0 {
        0
    } else {
        total_penalty(wishes, a, k - 1) + sq(wishes[k - 1]@[a[k - 1] as int])
    }
}

proof fn lemma_count_le(a: Seq<usize>, j: int, k: int)
    requires
        0 <= k,
    ensures
        count_in_slot(a, j, k) <= k,
    decreases k,
{
    if k > 0 {
        lemma_count_le(a, j, k - 1);
    }
}

proof fn lemma_seat_penalty_same(wishes: Seq<Vec<i32>>, slots: Seq<(u32, u32)>, p: Seq<int>, a: Seq<usize>, k: int)
    requires
        0 <= k,
        forall|i: int| 0 <= i < k ==> slot_of(#[trigger] p[i], seat_counts(slots, wishes.len() as usize)) == a[i],
    ensures
        seat_penalty(wishes, slots, p, k) == total_penalty(wishes, a, k),
    decreases k,
{
    if k > 0 {
        lemma_seat_penalty_same(wishes, slots, p, a, k - 1);
        assert(slot_of(p[k - 1], seat_counts(slots, wishes.len() as usize)) == a[k - 1]);
    }
}

/// The seats that the cost matrix can give an arrangement within the quotas: one seat per
/// participant in its slot's block, and every seat within a slot's least taken.
proof fn lemma_arrangement_seats(wishes: Seq<Vec<i32>>, slots: Seq<(u32, u32)>, a: Seq<usize>) -> (q: Seq<int>)
    requires
        wishes.len() <= i32::MAX,
        within_quotas(slots, a, wishes.len() as int),
    ensures
        wishes.len() <= total_seats(slots, wishes.len() as usize),
        is_permutation(q, total_seats(slots, wishes.len() as usize)),
        forall|i: int|
            0 <= i < wishes.len() ==> slot_of(#[trigger] q[i], seat_counts(slots, wishes.len() as usize)) == a[i],
        forall|c: int|
            0 <= c < total_seats(slots, wishes.len() as usize) && #[trigger] cheap(slots, wishes.len() as usize, c)
                ==> exists|i: int| 0 <= i < wishes.len() && #[trigger] q[i] == c,
{
    let n = wishes.len() as int;
    let nu = wishes.len() as usize;
    let k = slots.len() as int;
    let counts = seat_counts(slots, nu);
    let cols = total_seats(slots, nu);
    lemma_counts_nonneg(slots, nu);
    let p = Seq::new(n as nat, |i: int| seat_of(a, counts, i));
    assert forall|i: int| 0 <= i < n implies prefix_sum(counts, a[i] as int) <= #[trigger] p[i] < prefix_sum(
        counts,
        a[i] + 1,
    ) by {
        let j = a[i] as int;
        lemma_count_mono(a, j, i + 1, n);
        lemma_count_le(a, j, n);
        assert(count_in_slot(a, j, n) <= slots[j].1);
        assert(counts[j] == seats(slots[j], nu));
        assert(prefix_sum(counts, j + 1) == prefix_sum(counts, j) + counts[j]);
        lemma_prefix_sum_mono(counts, 0, j);
        assert(prefix_sum(counts, 0) == 0);
    }
    assert forall|i: int| 0 <= i < n implies 0 <= #[trigger] p[i] < cols by {
        lemma_prefix_sum_mono(counts, 0, a[i] as int);
        lemma_prefix_sum_mono(counts, a[i] + 1, k);
        assert(prefix_sum(counts, 0) == 0);
    }
    assert forall|i: int, i2: int| 0 <= i < n && 0 <= i2 < n && i != i2 implies #[trigger] p[i] != #[trigger] p[i2] by {
        let j = a[i] as int;
        let j2 = a[i2] as int;
        if j == j2 {
            if i < i2 {
                lemma_count_mono(a, j, i + 1, i2);
            } else {
                lemma_count_mono(a, j, i2 + 1, i);
            }
        } else if j < j2 {
            lemma_prefix_sum_mono(counts, j + 1, j2);
        } else {
            lemma_prefix_sum_mono(counts, j2 + 1, j);
        }
    }
    lemma_prefix_sum_mono(counts, 0, k);
    assert(prefix_sum(counts, 0) == 0);
    let v = lemma_pigeonhole(p, n, cols);
    let q = lemma_extend_permutation(p, n, cols);
    assert forall|i: int| 0 <= i < n implies slot_of(#[trigger] q[i], counts) == a[i] by {
        assert(q[i] == p[i]);
        lemma_slot_of_in_block(q[i], counts, a[i] as int);
    }
    assert forall|c: int| 0 <= c < cols && #[trigger] cheap(slots, nu, c) implies exists|i: int|
        0 <= i < n && #[trigger] q[i] == c by {
        lemma_placed(c, counts);
        let j = slot_of(c, counts);
        lemma_slot_of_block(c, counts, j);
        let r = c - prefix_sum(counts, j);
        assert(r < slots[j].0);
        assert(slots[j].0 <= count_in_slot(a, j, n));
        let i = lemma_rank_exists(a, j, r, n);
        assert(q[i] == p[i]);
    }
    q
}

proof fn lemma_swap_permutation(p: Seq<int>, m: int, i: int, r: int)
    requires
        is_permutation(p, m),
        0 <= i < m,
        0 <= r < m,
        i != r,
    ensures
        is_permutation(p.update(i, p[r]).update(r, p[i]), m),
{
    let s = p.update(i, p[r]).update(r, p[i]);
    assert forall|u: int| 0 <= u < m implies s[u] == p[if u == i {
        r
    } else if u == r {
        i
    } else {
        u
    }] by {}
    assert forall|u: int, v: int| 0 <= u < m && 0 <= v < m && u != v implies #[trigger] s[u] != #[trigger] s[v] by {
        let pu = if u == i { r } else if u == r { i } else { u };
        let pv = if v == i { r } else if v == r { i } else { v };
        assert(s[u] == p[pu] && s[v] == p[pv]);
    }
}

/// The seats within the slots' least, among the first `cols` seats.
spec fn cheap_seats(slots: Seq<(u32, u32)>, n: usize, cols: int) -> Set<int> {
    Set::new(|c: int| 0 <= c < cols && cheap(slots, n, c))
}

/// In a cheapest seating, every seat within a slot's least is taken by a participant, as
/// long as there are enough participants for them and every squared wish is below the
/// penalty: otherwise moving a participant from a penalised seat to a free one would be
/// cheaper.
proof fn lemma_cheap_seats_taken(wishes: Seq<Vec<i32>>, slots: Seq<(u32, u32)>, sigma: Seq<int>)
    requires
        wishes.len() <= total_seats(slots, wishes.len() as usize),
        is_optimal(
            wish_costs(wishes, slots, wishes.len() as usize),
            sigma,
            total_seats(slots, wishes.len() as usize),
        ),
        forall|i: int, j: int|
            0 <= i < wishes.len() && 0 <= j < slots.len() ==> sq(#[trigger] wishes[i]@[j]) < slots.len()
                * slots.len(),
        cheap_seats(slots, wishes.len() as usize, total_seats(slots, wishes.len() as usize)).finite(),
        cheap_seats(slots, wishes.len() as usize, total_seats(slots, wishes.len() as usize)).len() <= wishes.len(),
    ensures
        cheap_rows(slots, wishes.len() as usize, sigma, wishes.len() as int).map(|i: int| sigma[i]) == cheap_seats(
            slots,
            wishes.len() as usize,
            total_seats(slots, wishes.len() as usize),
        ),
{
    let n = wishes.len() as int;
    let nu = wishes.len() as usize;
    let k = slots.len() as int;
    let cols = total_seats(slots, nu);
    let mm = wish_costs(wishes, slots, nu);
    let x = penalty(wishes, k);
    let cs = cheap_rows(slots, nu, sigma, n);
    let cc = cheap_seats(slots, nu, cols);
    let f = |i: int| sigma[i];
    let d = cs.map(f);
    lemma_cheap_rows(slots, nu, sigma, n);
    assert(vstd::relations::injective_on(f, cs));
    lemma_map_size(cs, d, f);
    assert(d.subset_of(cc));
    lemma_len_subset(d, cc);
    if d.len() < cc.len() {
        if cc.subset_of(d) {
            lemma_len_subset(cc, d);
        }
        let c0 = choose|c: int| cc.contains(c) && !d.contains(c);
        let r0 = lemma_permutation_onto(sigma, cols, c0);
        if r0 < n {
            assert(cs.contains(r0));
            assert(d.contains(f(r0)));
        }
        let range = set_int_range(0, n);
        lemma_int_range(0, n);
        if range.subset_of(cs) {
            lemma_len_subset(range, cs);
        }
        let i1 = choose|i: int| range.contains(i) && !cs.contains(i);
        assert(!cheap(slots, nu, sigma[i1]));
        let s1 = sigma.update(i1, c0);
        let s2 = s1.update(r0, sigma[i1]);
        lemma_swap_permutation(sigma, cols, i1, r0);
        assert(s2 == sigma.update(i1, sigma[r0]).update(r0, sigma[i1]));
        lemma_total_cost_update(mm, sigma, cols, i1, c0);
        lemma_total_cost_update(mm, s1, cols, r0, sigma[i1]);
        assert(s1[r0] == c0);
        assert(mm(r0, c0) == 0);
        assert(mm(r0, sigma[i1]) == 0);
        lemma_seat_cost(wishes, slots, i1, sigma[i1]);
        lemma_seat_cost(wishes, slots, i1, c0);
        let counts = seat_counts(slots, nu);
        let w1 = wishes[i1]@[slot_of(sigma[i1], counts)];
        let w0 = wishes[i1]@[slot_of(c0, counts)];
        assert(sq(w0) < k * k);
        assert(sq(w1) >= 0) by (nonlinear_arith);
        assert(x >= k * k);
        assert(total_cost(mm, s2, cols) < total_cost(mm, sigma, cols));
        assert(is_permutation(s2, cols));
        assert(total_cost(mm, sigma, cols) <= total_cost(mm, s2, cols));
    }
    lemma_subset_equality(d, cc);
}

/// The assignment honours the slots' quotas and minimises the penalty under them: whenever
/// some arrangement `a` puts every slot between its least and its most, the assignment does
/// too, and its sum of squared wishes is at most that of `a`. This holds when every squared
/// wish is below the squared number of slots, as for wishes from `0` to the number of slots
/// minus one.
pub proof fn lemma_assignment_within_quotas(
    wishes: Seq<Vec<i32>>,
    slots: Seq<(u32, u32)>,
    result: Seq<usize>,
    a: Seq<usize>,
)
    requires
        assignable(wishes, slots),
        is_assignment(wishes, slots, result),
        forall|i: int, j: int|
            0 <= i < wishes.len() && 0 <= j < slots.len() ==> sq(#[trigger] wishes[i]@[j]) < slots.len()
                * slots.len(),
        within_quotas(slots, a, wishes.len() as int),
    ensures
        within_quotas(slots, result, wishes.len() as int),
        total_penalty(wishes, result, wishes.len() as int) <= total_penalty(wishes, a, wishes.len() as int),
{
    let n = wishes.len() as int;
    let nu = wishes.len() as usize;
    let k = slots.len() as int;
    let counts = seat_counts(slots, nu);
    if n == 0 {
        assert forall|j: int| 0 <= j < k implies slots[j].0 <= #[trigger] count_in_slot(result, j, n)
            <= slots[j].1 by {
            assert(count_in_slot(a, j, n) == 0);
        }
        return;
    }
    let cols = total_seats(slots, nu);
    let mm = wish_costs(wishes, slots, nu);
    let x = penalty(wishes, k);
    let q = lemma_arrangement_seats(wishes, slots, a);
    assert(max_int(n, cols) == cols);
    let sigma = choose|sigma: Seq<int>|
        #[trigger] is_optimal(mm, sigma, max_int(n, cols)) && forall|i: int|
            0 <= i < n ==> #[trigger] result[i] == slot_of(restrict(sigma, n, cols)[i], counts);
    assert forall|i: int| 0 <= i < n implies slot_of(#[trigger] sigma[i], counts) == result[i] by {
        assert(result[i] == slot_of(restrict(sigma, n, cols)[i], counts));
    }
    // Costs of the two seatings.
    lemma_total_cost_rows(wishes, slots, sigma, cols);
    lemma_total_cost_rows(wishes, slots, q, cols);
    lemma_total_cost_split(wishes, slots, sigma, n);
    lemma_total_cost_split(wishes, slots, q, n);
    lemma_seat_penalty_same(wishes, slots, sigma, result, n);
    lemma_seat_penalty_same(wishes, slots, q, a, n);
    assert(total_cost(mm, sigma, cols) <= total_cost(mm, q, cols));
    // The arrangement's seating takes exactly the cheap seats with its cheap rows.
    let cc = cheap_seats(slots, nu, cols);
    let cq = cheap_rows(slots, nu, q, n);
    let fq = |i: int| q[i];
    lemma_cheap_rows(slots, nu, q, n);
    assert(cq.map(fq) =~= cc) by {
        assert forall|c: int| cc.contains(c) implies cq.map(fq).contains(c) by {
            let i = choose|i: int| 0 <= i < n && #[trigger] q[i] == c;
            assert(cq.contains(i));
        }
    }
    assert(vstd::relations::injective_on(fq, cq));
    lemma_map_size(cq, cc, fq);
    let range = set_int_range(0, n);
    lemma_int_range(0, n);
    assert(cq.subset_of(range));
    lemma_len_subset(cq, range);
    // The assignment's seating takes them all too.
    lemma_cheap_seats_taken(wishes, slots, sigma);
    let cs = cheap_rows(slots, nu, sigma, n);
    let fs = |i: int| sigma[i];
    lemma_cheap_rows(slots, nu, sigma, n);
    assert(vstd::relations::injective_on(fs, cs));
    lemma_map_size(cs, cc, fs);
    let es = extra_count(slots, nu, sigma, n);
    let eq = extra_count(slots, nu, q, n);
    assert(es == eq);
    // Quotas of the assignment.
    assert forall|j: int| 0 <= j < k implies slots[j].0 <= #[trigger] count_in_slot(result, j, n) <= slots[j].1 by {
        lemma_slot_capacity(wishes, slots, result, j);
        lemma_counts_nonneg(slots, nu);
        let lo = prefix_sum(counts, j);
        let vmin = slots[j].0 as int;
        lemma_count_le(a, j, n);
        assert(count_in_slot(a, j, n) <= slots[j].1);
        assert(counts[j] == seats(slots[j], nu));
        assert(vmin <= counts[j]);
        assert(prefix_sum(counts, j + 1) == lo + counts[j]);
        lemma_prefix_sum_mono(counts, j + 1, k);
        let g = |r: int| choose|i: int| cs.contains(i) && sigma[i] == lo + r;
        let rs = set_int_range(0, vmin);
        lemma_int_range(0, vmin);
        assert forall|r: int| rs.contains(r) implies cs.contains(g(r)) && sigma[g(r)] == lo + r by {
            let c = lo + r;
            lemma_slot_of_in_block(c, counts, j);
            assert(cc.contains(c));
            assert(cs.map(fs).contains(c));
        }
        assert(vstd::relations::injective_on(g, rs));
        lemma_map_size(rs, rs.map(g), g);
        lemma_slot_members(result, j, n);
        assert forall|i: int| rs.map(g).contains(i) implies slot_members(result, j, n).contains(i) by {
            let r = choose|r: int| rs.contains(r) && g(r) == i;
            lemma_slot_of_in_block(lo + r, counts, j);
        }
        lemma_len_subset(rs.map(g), slot_members(result, j, n));
    }
}

} // verus!
