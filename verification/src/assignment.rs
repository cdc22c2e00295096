//! From wishes and slot quotas to a cost matrix, and from the solver's columns back to slots.
use vstd::prelude::*;
use crate::hungarian::MAX_COST;

verus! {

/// Whether `n_slots` slots keep every cost within the solver's range: a seat costs at most the
/// penalty (the squared number of slots, or a squared wish, itself an `i32`) plus a squared wish.
pub open spec fn costs_fit(n_slots: int) -> bool {
    n_slots * n_slots + 2 * i32::MAX <= MAX_COST
}

/// Square of a wish value.
pub open spec fn sq(w: i32) -> int {
    w as int * w as int
}

pub open spec fn max_int(a: int, b: int) -> int {
    if a < b { b } else { a }
}

/// Largest square among the values of `s` (0 when `s` is empty).
pub open spec fn max_sq(s: Seq<i32>) -> int
    decreases s.len(),
{
    if s.len() == 0 {
        0
    } else {
        max_int(max_sq(s.drop_last()), sq(s.last()))
    }
}

/// Largest square among all values of all wishes.
pub open spec fn max_sq_all(ws: Seq<Vec<i32>>) -> int
    decreases ws.len(),
{
    if ws.len() == 0 {
        0
    } else {
        max_int(max_sq_all(ws.drop_last()), max_sq(ws.last()@))
    }
}

/// The extra cost of a seat beyond a slot's minimum: the larger of the squared number of
/// slots and the largest squared wish.
pub open spec fn penalty(ws: Seq<Vec<i32>>, n_slots: int) -> int {
    max_int(n_slots * n_slots, max_sq_all(ws))
}

/// Seats of slot `(vmin, vmax)`: its maximum, capped by the number of participants.
pub open spec fn seats(slot: (u32, u32), n: usize) -> int {
    if slot.1 < n as u32 { slot.1 as int } else { (n as u32) as int }
}

/// The seats of each slot.
pub open spec fn seat_counts(slots: Seq<(u32, u32)>, n: usize) -> Seq<int> {
    slots.map_values(|s: (u32, u32)| seats(s, n))
}

/// Columns of one slot: the first `vmin` seats cost the squared wish, the others the
/// squared wish plus the penalty.
pub open spec fn slot_columns(c: int, vmin: int, count: int, x: int) -> Seq<int> {
    Seq::new(count as nat, |k: int| if k < vmin { c } else { x + c })
}

/// The row of costs for one participant, slot after slot.
pub open spec fn cost_row(wish: Seq<i32>, slots: Seq<(u32, u32)>, n: usize, x: int) -> Seq<int>
    decreases slots.len(),
{
    if slots.len() == 0 {
        Seq::empty()
    } else {
        cost_row(wish, slots.drop_last(), n, x) + slot_columns(
            sq(wish[slots.len() - 1]),
            slots.last().0 as int,
            seats(slots.last(), n),
            x,
        )
    }
}

/// Sum of the first `k` entries.
pub open spec fn prefix_sum(s: Seq<int>, k: int) -> int
    decreases k,
{
    if k <= 0 {
        0
    } else {
        prefix_sum(s, k - 1) + s[k - 1]
    }
}

/// The costs of an `i64` row, as integers.
pub open spec fn row_ints(r: Seq<i64>) -> Seq<int> {
    r.map_values(|c: i64| c as int)
}

/// Wishes the cost matrix accepts: one value per slot at least, each squared value an `i32`.
pub open spec fn valid_wishes(ws: Seq<Vec<i32>>, n_slots: int) -> bool {
    &&& forall|r: int| 0 <= r < ws.len() ==> #[trigger] ws[r]@.len() >= n_slots
    &&& forall|r: int, k: int| 0 <= r < ws.len() && 0 <= k < ws[r]@.len() ==> #[trigger] sq(ws[r]@[k]) <= i32::MAX
}

proof fn lemma_max_sq_bound(s: Seq<i32>)
    requires
        forall|k: int| 0 <= k < s.len() ==> #[trigger] sq(s[k]) <= i32::MAX,
    ensures
        0 <= max_sq(s) <= i32::MAX,
    decreases s.len(),
{
    if s.len() > 0 {
        assert(sq(s[s.len() - 1]) <= i32::MAX);
        assert(forall|k: int| 0 <= k < s.len() - 1 ==> s.drop_last()[k] == s[k]);
        lemma_max_sq_bound(s.drop_last());
        assert(sq(s.last()) >= 0) by (nonlinear_arith);
    }
}

proof fn lemma_max_sq_all_bound(ws: Seq<Vec<i32>>)
    requires
        forall|r: int, k: int| 0 <= r < ws.len() && 0 <= k < ws[r]@.len() ==> #[trigger] sq(ws[r]@[k]) <= i32::MAX,
    ensures
        0 <= max_sq_all(ws) <= i32::MAX,
    decreases ws.len(),
{
    if ws.len() > 0 {
        assert forall|k: int| 0 <= k < ws.last()@.len() implies #[trigger] sq(ws.last()@[k]) <= i32::MAX by {
            assert(sq(ws[ws.len() - 1]@[k]) <= i32::MAX);
        }
        lemma_max_sq_bound(ws.last()@);
        assert forall|r: int, k: int| 0 <= r < ws.drop_last().len() && 0 <= k < ws.drop_last()[r]@.len() implies
            #[trigger] sq(ws.drop_last()[r]@[k]) <= i32::MAX by {
            assert(sq(ws[r]@[k]) <= i32::MAX);
        }
        lemma_max_sq_all_bound(ws.drop_last());
    }
}

pub proof fn lemma_cost_row_len(wish: Seq<i32>, slots: Seq<(u32, u32)>, n: usize, x: int)
    ensures
        cost_row(wish, slots, n, x).len() == prefix_sum(seat_counts(slots, n), slots.len() as int),
    decreases slots.len(),
{
    if slots.len() > 0 {
        lemma_cost_row_len(wish, slots.drop_last(), n, x);
        lemma_prefix_sum_prefix(seat_counts(slots, n), seat_counts(slots.drop_last(), n), slots.len() - 1);
    }
}

pub(crate) proof fn lemma_prefix_sum_prefix(s: Seq<int>, t: Seq<int>, k: int)
    requires
        0 <= k <= t.len(),
        k <= s.len(),
        forall|i: int| 0 <= i < k ==> s[i] == t[i],
    ensures
        prefix_sum(s, k) == prefix_sum(t, k),
    decreases k,
{
    if k > 0 {
        lemma_prefix_sum_prefix(s, t, k - 1);
    }
}

/// Builds the cost matrix: one row per participant, one column per seat; each slot has
/// `min(vmax, num_participants)` seats, the first `vmin` of them at the squared wish and
/// the rest at the squared wish plus the penalty.
pub fn build_cost_matrix(wishes: &[Vec<i32>], slots: &[(u32, u32)], num_participants: usize) -> (cost: Vec<
    Vec<i64>,
>)
    requires
        costs_fit(slots.len() as int),
        valid_wishes(wishes@, slots.len() as int),
    ensures
        cost.len() == wishes.len(),
        forall|r: int|
            0 <= r < wishes.len() ==> row_ints(#[trigger] cost[r]@) == cost_row(
                wishes[r]@,
                slots@,
                num_participants,
                penalty(wishes@, slots.len() as int),
            ),
        forall|r: int, j: int|
            0 <= r < wishes.len() && 0 <= j < cost[r]@.len() ==> 0 <= #[trigger] cost[r]@[j] <= MAX_COST,
{
    let n_slots = slots.len();
    let ghost ws = wishes@;
    assert(n_slots <= 0x10_0000) by (nonlinear_arith)
        requires
            n_slots * n_slots <= 0x100_0000_0000,
            n_slots >= 0,
    ;
    let mut x: i64 = ((n_slots as u64) * (n_slots as u64)) as i64;
    let mut r: usize = 0;
    while r < wishes.len()
        invariant
            r <= wishes.len(),
            ws == wishes@,
            valid_wishes(ws, n_slots as int),
            n_slots == slots.len(),
            costs_fit(n_slots as int),
            x == max_int(n_slots * n_slots, max_sq_all(ws.take(r as int))),
        decreases wishes.len() - r,
    {
        let wish = &wishes[r];
        let ghost x0 = x;
        let mut k: usize = 0;
        while k < wish.len()
            invariant
                k <= wish.len(),
                r < wishes.len(),
                wish == wishes@[r as int],
                valid_wishes(ws, n_slots as int),
                ws == wishes@,
                x == max_int(x0 as int, max_sq(wish@.take(k as int))),
                x0 == max_int(n_slots * n_slots, max_sq_all(ws.take(r as int))),
                costs_fit(n_slots as int),
            decreases wish.len() - k,
        {
            assert(sq(ws[r as int]@[k as int]) <= i32::MAX);
            assert(wish@.take(k + 1).drop_last() =~= wish@.take(k as int));
            let w = wish[k];
            assert(sq(w) >= 0) by (nonlinear_arith);
            let s = (w * w) as i64;
            if s > x {
                x = s;
            }
            k = k + 1;
        }
        assert(wish@.take(wish.len() as int) =~= wish@);
        assert(ws.take(r + 1).drop_last() =~= ws.take(r as int));
        r = r + 1;
    }
    assert(ws.take(wishes.len() as int) =~= ws);
    proof {
        lemma_max_sq_all_bound(ws);
    }
    let ghost xs = penalty(ws, n_slots as int);
    assert(x == xs);
    assert(0 <= x <= MAX_COST - i32::MAX);
    let mut cost: Vec<Vec<i64>> = Vec::new();
    let mut r: usize = 0;
    while r < wishes.len()
        invariant
            r <= wishes.len(),
            ws == wishes@,
            valid_wishes(ws, n_slots as int),
            n_slots == slots.len(),
            x == xs,
            xs == penalty(ws, n_slots as int),
            0 <= x <= MAX_COST - i32::MAX,
            cost.len() == r,
            forall|q: int| 0 <= q < r ==> row_ints(#[trigger] cost[q]@) == cost_row(ws[q]@, slots@, num_participants, xs),
            forall|q: int, j: int| 0 <= q < r && 0 <= j < cost[q]@.len() ==> 0 <= #[trigger] cost[q]@[j] <= MAX_COST,
        decreases wishes.len() - r,
    {
        let wish = &wishes[r];
        let mut row: Vec<i64> = Vec::new();
        let mut j: usize = 0;
        while j < n_slots
            invariant
                j <= n_slots,
                n_slots == slots.len(),
                r < wishes.len(),
                wish == wishes@[r as int],
                ws == wishes@,
                valid_wishes(ws, n_slots as int),
                0 <= x <= MAX_COST - i32::MAX,
                row_ints(row@) == cost_row(wish@, slots@.take(j as int), num_participants, x as int),
                forall|q: int| 0 <= q < row@.len() ==> 0 <= #[trigger] row@[q] <= MAX_COST,
            decreases n_slots - j,
        {
            assert(wish@.len() >= n_slots);
            assert(sq(ws[r as int]@[j as int]) <= i32::MAX);
            assert(sq(wish@[j as int]) >= 0) by (nonlinear_arith);
            let c = (wish[j] * wish[j]) as i64;
            let (vmin, vmax) = slots[j];
            let cap = num_participants as u32;
            let count = if vmax < cap { vmax } else { cap };
            let ghost before = row_ints(row@);
            let mut k: u32 = 0;
            while k < count
                invariant
                    k <= count,
                    0 <= c <= i32::MAX,
                    0 <= x <= MAX_COST - i32::MAX,
                    row_ints(row@) == before + slot_columns(c as int, vmin as int, count as int, x as int).take(
                        k as int,
                    ),
                    forall|q: int| 0 <= q < row@.len() ==> 0 <= #[trigger] row@[q] <= MAX_COST,
                decreases count - k,
            {
                let v = if k < vmin { c } else { x + c };
                let ghost prev = row@;
                row.push(v);
                assert(row_ints(row@) =~= row_ints(prev).push(v as int));
                assert(slot_columns(c as int, vmin as int, count as int, x as int).take(k + 1) =~= slot_columns(
                    c as int,
                    vmin as int,
                    count as int,
                    x as int,
                ).take(k as int).push(v as int));
                k = k + 1;
            }
            proof {
                let sl = slots@.take(j + 1);
                assert(sl.drop_last() =~= slots@.take(j as int));
                assert(sl.last() == slots@[j as int]);
                assert(slot_columns(c as int, vmin as int, count as int, x as int).take(count as int)
                    =~= slot_columns(c as int, vmin as int, count as int, x as int));
                assert(seats(slots@[j as int], num_participants) == count);
            }
            j = j + 1;
        }
        assert(slots@.take(n_slots as int) =~= slots@);
        let ghost prev = cost@;
        cost.push(row);
        assert forall|q: int| 0 <= q <= r implies row_ints(#[trigger] cost[q]@) == cost_row(
            ws[q]@,
            slots@,
            num_participants,
            xs,
        ) by {
            if q < r {
                assert(cost[q] == prev[q]);
            }
        }
        assert forall|q: int, j: int| 0 <= q <= r && 0 <= j < cost[q]@.len() implies 0 <= #[trigger] cost[q]@[j]
            <= MAX_COST by {
            if q < r {
                assert(cost[q] == prev[q]);
            }
        }
        r = r + 1;
    }
    cost
}

/// Index of the slot whose block of seats holds column `a`, blocks laid out slot after slot.
pub open spec fn slot_of(a: int, counts: Seq<int>) -> int
    decreases counts.len(),
{
    if counts.len() == 0 || a < counts[0] {
        0
    } else {
        1 + slot_of(a - counts[0], counts.drop_first())
    }
}

/// Column `a` falls into some slot's block (a negative column falls into the first slot).
pub open spec fn placed(a: int, counts: Seq<int>) -> bool
    decreases counts.len(),
{
    if counts.len() == 0 {
        false
    } else if a < counts[0] {
        true
    } else {
        placed(a - counts[0], counts.drop_first())
    }
}

proof fn lemma_slot_of_bound(a: int, counts: Seq<int>)
    requires
        placed(a, counts),
    ensures
        0 <= slot_of(a, counts) < counts.len(),
    decreases counts.len(),
{
    if a >= counts[0] {
        lemma_slot_of_bound(a - counts[0], counts.drop_first());
    }
}

proof fn lemma_slot_of_nonneg(a: int, counts: Seq<int>)
    ensures
        slot_of(a, counts) >= 0,
    decreases counts.len(),
{
    if counts.len() > 0 && a >= counts[0] {
        lemma_slot_of_nonneg(a - counts[0], counts.drop_first());
    }
}

/// A non-negative column that lands in slot `j` lies in that slot's block of columns.
pub(crate) proof fn lemma_slot_of_block(a: int, counts: Seq<int>, j: int)
    requires
        0 <= a,
        0 <= j < counts.len(),
        slot_of(a, counts) == j,
    ensures
        prefix_sum(counts, j) <= a < prefix_sum(counts, j + 1),
    decreases counts.len(),
{
    if a >= counts[0] {
        lemma_slot_of_nonneg(a - counts[0], counts.drop_first());
        lemma_slot_of_block(a - counts[0], counts.drop_first(), j - 1);
        lemma_prefix_sum_drop_first(counts, j + 1);
        if j >= 1 {
            lemma_prefix_sum_drop_first(counts, j);
        }
    } else {
        assert(prefix_sum(counts, 1) == prefix_sum(counts, 0) + counts[0]);
    }
}

/// Every column below the total number of seats falls into a slot's block.
pub proof fn lemma_placed(a: int, counts: Seq<int>)
    requires
        counts.len() > 0,
        a < prefix_sum(counts, counts.len() as int),
        forall|i: int| 0 <= i < counts.len() ==> counts[i] >= 0,
    ensures
        placed(a, counts),
        0 <= slot_of(a, counts) < counts.len(),
    decreases counts.len(),
{
    if a >= counts[0] {
        lemma_prefix_sum_drop_first(counts, counts.len() as int);
        if counts.len() == 1 {
            assert(prefix_sum(counts, 1) == counts[0]);
            assert(false);
        }
        lemma_placed(a - counts[0], counts.drop_first());
    }
    lemma_slot_of_bound(a, counts);
}

pub(crate) proof fn lemma_prefix_sum_drop_first(s: Seq<int>, k: int)
    requires
        1 <= k <= s.len(),
    ensures
        prefix_sum(s, k) == s[0] + prefix_sum(s.drop_first(), k - 1),
    decreases k,
{
    if k > 1 {
        lemma_prefix_sum_drop_first(s, k - 1);
        assert(s.drop_first()[k - 2] == s[k - 1]);
        assert(prefix_sum(s.drop_first(), k - 1) == prefix_sum(s.drop_first(), k - 2) + s.drop_first()[k - 2]);
    } else {
        assert(prefix_sum(s, 0) == 0);
        assert(prefix_sum(s.drop_first(), 0) == 0);
    }
}

/// Converts the solver's column of each participant back to the index of its slot.
pub fn assignment_to_slots(assignment: &[i32], slots: &[(u32, u32)], num_participants: usize) -> (result: Vec<
    usize,
>)
    requires
        num_participants <= i32::MAX,
        forall|i: int| 0 <= i < assignment.len() ==> placed(#[trigger] assignment[i] as int, seat_counts(slots@, num_participants)),
    ensures
        result.len() == assignment.len(),
        forall|i: int|
            0 <= i < assignment.len() ==> #[trigger] result[i] == slot_of(assignment[i] as int, seat_counts(slots@, num_participants)),
        forall|i: int| 0 <= i < assignment.len() ==> #[trigger] result[i] < slots.len(),
{
    let ghost counts = seat_counts(slots@, num_participants);
    let mut result: Vec<usize> = Vec::new();
    let mut i: usize = 0;
    while i < assignment.len()
        invariant
            i <= assignment.len(),
            num_participants <= i32::MAX,
            counts == seat_counts(slots@, num_participants),
            forall|q: int| 0 <= q < assignment.len() ==> placed(#[trigger] assignment[q] as int, counts),
            result.len() == i,
            forall|q: int| 0 <= q < i ==> #[trigger] result[q] == slot_of(assignment[q] as int, counts),
            forall|q: int| 0 <= q < i ==> #[trigger] result[q] < slots.len(),
        decreases assignment.len() - i,
    {
        let a = assignment[i];
        proof {
            assert(placed(a as int, counts));
            lemma_slot_of_bound(a as int, counts);
        }
        let mut remaining: i32 = a;
        let mut slot_idx: usize = if slots.len() > 0 { slots.len() - 1 } else { 0 };
        let mut j: usize = 0;
        assert(counts.skip(0) =~= counts);
        while j < slots.len()
            invariant_except_break
                placed(remaining as int, counts.skip(j as int)),
                slot_of(a as int, counts) == j + slot_of(remaining as int, counts.skip(j as int)),
            invariant
                j <= slots.len(),
                num_participants <= i32::MAX,
                counts == seat_counts(slots@, num_participants),
            ensures
                slot_idx == slot_of(a as int, counts),
            decreases slots.len() - j,
        {
            let (_vmin, vmax) = slots[j];
            let cap = num_participants as u32;
            let count = (if vmax < cap { vmax } else { cap }) as i32;
            assert(counts.skip(j as int)[0] == count);
            assert(counts.skip(j as int).drop_first() =~= counts.skip(j + 1));
            if remaining < count {
                slot_idx = j;
                break;
            }
            remaining = remaining - count;
            j = j + 1;
        }
        result.push(slot_idx);
        i = i + 1;
    }
    result
}

} // verus!
