//! The Hungarian algorithm on a rectangular cost matrix.
use vstd::prelude::*;
use crate::permutation::{is_permutation, sum_range, sum_over, lemma_sum_over_permutation};
use crate::solver::{BOUND, cell, cells, square_bounded, total_cost, is_optimal, as_ints, solve_square};

verus! {

/// Largest magnitude accepted for a cost.
pub const MAX_COST: i64 = 0x100_0000_0000;

/// Rows of the matrix.
pub open spec fn n_rows(cm: Seq<Vec<i64>>) -> int {
    cm.len() as int
}

/// Columns of the matrix: the length of its first row.
pub open spec fn n_cols(cm: Seq<Vec<i64>>) -> int {
    if cm.len() == 0 { 0 } else { cm[0].len() as int }
}

/// Side of the square matrix the costs are padded to.
pub open spec fn side(cm: Seq<Vec<i64>>) -> int {
    if n_rows(cm) > n_cols(cm) { n_rows(cm) } else { n_cols(cm) }
}

/// The cost matrix padded with zeros to a square.
pub open spec fn padded(cm: Seq<Vec<i64>>) -> spec_fn(int, int) -> int {
    |w: int, j: int| if 0 <= w < cm.len() && 0 <= j < cm[w].len() { cm[w]@[j] as int } else { 0 }
}

/// Costs the algorithm accepts: no row longer than the padded side, every entry within `MAX_COST`.
pub open spec fn valid_costs(cm: Seq<Vec<i64>>) -> bool {
    &&& cm.len() <= i32::MAX
    &&& n_cols(cm) <= i32::MAX
    &&& forall|w: int| 0 <= w < cm.len() ==> #[trigger] cm[w].len() <= side(cm)
    &&& forall|w: int, j: int|
        0 <= w < cm.len() && 0 <= j < cm[w].len() ==> -MAX_COST <= #[trigger] cm[w]@[j] <= MAX_COST
}

/// The job given to each real worker by the square assignment `sigma`,
/// or `-1` when it is one of the padding columns.
pub open spec fn restrict(sigma: Seq<int>, rows: int, cols: int) -> Seq<int> {
    Seq::new(rows as nat, |w: int| if sigma[w] < cols { sigma[w] } else { -1 })
}

proof fn lemma_shifted_cost(
    a: spec_fn(int, int) -> int,
    b: spec_fn(int, int) -> int,
    x: spec_fn(int) -> int,
    y: spec_fn(int) -> int,
    p: Seq<int>,
    n: int,
    k: int,
)
    requires
        is_permutation(p, n),
        0 <= k <= n,
        forall|w: int, j: int| 0 <= w < n && 0 <= j < n ==> #[trigger] a(w, j) == b(w, j) + x(w) + y(j),
    ensures
        total_cost(a, p, k) == total_cost(b, p, k) + sum_range(x, k) + sum_over(p.take(k), y),
    decreases k,
{
    if k > 0 {
        lemma_shifted_cost(a, b, x, y, p, n, k - 1);
        assert(p.take(k).drop_last() =~= p.take(k - 1));
        assert(a(k - 1, p[k - 1]) == b(k - 1, p[k - 1]) + x(k - 1) + y(p[k - 1]));
    }
}

/// Subtracting a constant from each row and from each column leaves the cheapest assignments unchanged.
proof fn lemma_optimal_shifted(
    a: spec_fn(int, int) -> int,
    b: spec_fn(int, int) -> int,
    x: spec_fn(int) -> int,
    y: spec_fn(int) -> int,
    p: Seq<int>,
    n: int,
)
    requires
        is_optimal(b, p, n),
        forall|w: int, j: int| 0 <= w < n && 0 <= j < n ==> #[trigger] a(w, j) == b(w, j) + x(w) + y(j),
    ensures
        is_optimal(a, p, n),
{
    lemma_shifted_cost(a, b, x, y, p, n, n);
    assert(p.take(n) =~= p);
    lemma_sum_over_permutation(p, n, y);
    assert forall|q: Seq<int>| is_permutation(q, n) implies total_cost(a, p, n) <= #[trigger] total_cost(
        a,
        q,
        n,
    ) by {
        lemma_shifted_cost(a, b, x, y, q, n, n);
        assert(q.take(n) =~= q);
        lemma_sum_over_permutation(q, n, y);
        assert(total_cost(b, p, n) <= total_cost(b, q, n));
    }
}

/// Row `w` of the padded square matrix of side `dim`.
fn padded_row(cost_matrix: &[Vec<i64>], w: usize, dim: usize) -> (row: Vec<i64>)
    requires
        valid_costs(cost_matrix@),
        dim == side(cost_matrix@),
        w < dim,
    ensures
        row.len() == dim,
        forall|j: int| 0 <= j < dim ==> #[trigger] row[j] == (padded(cost_matrix@))(w as int, j),
        forall|j: int| 0 <= j < dim ==> -MAX_COST <= #[trigger] row[j] <= MAX_COST,
{
    let mut row: Vec<i64> = Vec::new();
    let mut j: usize = 0;
    while j < dim
        invariant
            j <= dim,
            w < dim,
            valid_costs(cost_matrix@),
            row.len() == j,
            forall|k: int| 0 <= k < j ==> #[trigger] row[k] == (padded(cost_matrix@))(w as int, k),
            forall|k: int| 0 <= k < j ==> -MAX_COST <= #[trigger] row[k] <= MAX_COST,
        decreases dim - j,
    {
        if w < cost_matrix.len() && j < cost_matrix[w].len() {
            row.push(cost_matrix[w][j]);
        } else {
            row.push(0);
        }
        j = j + 1;
    }
    row
}

/// Hungarian algorithm for the assignment problem.
///
/// Given a cost matrix (workers x jobs), returns an assignment vector where
/// `result[worker]` is the assigned job, or `-1` if the worker is unassigned.
/// The matrix is padded with zeros to a square; the assignment is a cheapest
/// permutation of that square restricted to the real workers, with the
/// padding jobs reported as `-1`.
pub fn hungarian(cost_matrix: &[Vec<i64>]) -> (res: Vec<i32>)
    requires
        valid_costs(cost_matrix@),
    ensures
        n_rows(cost_matrix@) == 0 || n_cols(cost_matrix@) == 0 ==> res.len() == 0,
        n_rows(cost_matrix@) > 0 && n_cols(cost_matrix@) > 0 ==> exists|sigma: Seq<int>|
            #[trigger] is_optimal(padded(cost_matrix@), sigma, side(cost_matrix@))
                && as_ints(res@) == restrict(sigma, n_rows(cost_matrix@), n_cols(cost_matrix@)),
{
    let rows = cost_matrix.len();
    if rows == 0 || cost_matrix[0].len() == 0 {
        return Vec::new();
    }
    let cols = cost_matrix[0].len();
    let dim = if rows > cols { rows } else { cols };
    let ghost pm = padded(cost_matrix@);
    // Pad to a square and reduce each row by its minimum.
    let mut reduced: Vec<Vec<i64>> = Vec::new();
    let ghost mut row_min: Seq<int> = Seq::empty();
    let mut w: usize = 0;
    while w < dim
        invariant
            w <= dim,
            valid_costs(cost_matrix@),
            dim == side(cost_matrix@),
            pm == padded(cost_matrix@),
            reduced.len() == w,
            row_min.len() == w,
            forall|x: int| 0 <= x < w ==> #[trigger] reduced[x]@.len() == dim,
            forall|x: int, j: int| 0 <= x < w && 0 <= j < dim ==> 0 <= #[trigger] cell(reduced@, x, j) <= BOUND,
            forall|x: int, j: int| 0 <= x < w && 0 <= j < dim ==> #[trigger] cell(reduced@, x, j) == pm(x, j) - row_min[x],
        decreases dim - w,
    {
        let row = padded_row(cost_matrix, w, dim);
        let mut m: i64 = row[0];
        let mut j: usize = 1;
        while j < dim
            invariant
                1 <= j <= dim,
                row.len() == dim,
                forall|k: int| 0 <= k < dim ==> -MAX_COST <= #[trigger] row[k] <= MAX_COST,
                -MAX_COST <= m <= MAX_COST,
                forall|k: int| 0 <= k < j ==> m <= #[trigger] row[k],
            decreases dim - j,
        {
            if row[j] < m {
                m = row[j];
            }
            j = j + 1;
        }
        let mut shifted: Vec<i64> = Vec::new();
        let mut j: usize = 0;
        while j < dim
            invariant
                j <= dim,
                row.len() == dim,
                forall|k: int| 0 <= k < dim ==> -MAX_COST <= #[trigger] row[k] <= MAX_COST,
                -MAX_COST <= m <= MAX_COST,
                forall|k: int| 0 <= k < dim ==> m <= #[trigger] row[k],
                shifted.len() == j,
                forall|k: int| 0 <= k < j ==> #[trigger] shifted[k] == row[k] - m,
            decreases dim - j,
        {
            shifted.push(row[j] - m);
            j = j + 1;
        }
        let ghost prev = reduced@;
        let ghost prev_min = row_min;
        proof {
            row_min = row_min.push(m as int);
        }
        reduced.push(shifted);
        assert forall|x: int, j: int| 0 <= x <= w && 0 <= j < dim implies 0 <= #[trigger] cell(reduced@, x, j)
            <= BOUND && cell(reduced@, x, j) == pm(x, j) - row_min[x] by {
            if x < w {
                assert(reduced@[x] == prev[x]);
                assert(row_min[x] == prev_min[x]);
                assert(0 <= cell(prev, x, j) <= BOUND && cell(prev, x, j) == pm(x, j) - prev_min[x]);
            } else {
                assert(reduced@[x] == shifted);
                assert(row[j] == pm(x, j));
                assert(shifted[j] == row[j] - m);
                assert(m <= row[j]);
                assert(row[j] <= MAX_COST);
                assert(row_min[x] == m);
            }
        }
        w = w + 1;
    }
    // Reduce each column by its minimum.
    let mut col_min: Vec<i64> = Vec::new();
    let mut j: usize = 0;
    while j < dim
        invariant
            j <= dim,
            reduced.len() == dim,
            forall|x: int| 0 <= x < dim ==> #[trigger] reduced[x]@.len() == dim,
            forall|x: int, k: int| 0 <= x < dim && 0 <= k < dim ==> 0 <= #[trigger] cell(reduced@, x, k) <= BOUND,
            col_min.len() == j,
            forall|k: int| 0 <= k < j ==> 0 <= #[trigger] col_min[k] <= BOUND,
            forall|x: int, k: int| 0 <= x < dim && 0 <= k < j ==> col_min[k] <= #[trigger] cell(reduced@, x, k),
        decreases dim - j,
    {
        assert(0 <= cell(reduced@, 0, j as int) <= BOUND);
        let mut m: i64 = reduced[0][j];
        let mut x: usize = 1;
        while x < dim
            invariant
                1 <= x <= dim,
                j < dim,
                reduced.len() == dim,
                forall|y: int| 0 <= y < dim ==> #[trigger] reduced[y]@.len() == dim,
                forall|y: int, k: int| 0 <= y < dim && 0 <= k < dim ==> 0 <= #[trigger] cell(reduced@, y, k) <= BOUND,
                0 <= m <= BOUND,
                forall|y: int| 0 <= y < x ==> m <= #[trigger] cell(reduced@, y, j as int),
            decreases dim - x,
        {
            assert(0 <= cell(reduced@, x as int, j as int) <= BOUND);
            if reduced[x][j] < m {
                m = reduced[x][j];
            }
            x = x + 1;
        }
        col_min.push(m);
        j = j + 1;
    }
    let mut square: Vec<Vec<i64>> = Vec::new();
    let mut x: usize = 0;
    while x < dim
        invariant
            x <= dim,
            reduced.len() == dim,
            forall|y: int| 0 <= y < dim ==> #[trigger] reduced[y]@.len() == dim,
            forall|y: int, k: int| 0 <= y < dim && 0 <= k < dim ==> 0 <= #[trigger] cell(reduced@, y, k) <= BOUND,
            col_min.len() == dim,
            forall|k: int| 0 <= k < dim ==> 0 <= #[trigger] col_min[k] <= BOUND,
            forall|y: int, k: int| 0 <= y < dim && 0 <= k < dim ==> col_min[k] <= #[trigger] cell(reduced@, y, k),
            square.len() == x,
            forall|y: int| 0 <= y < x ==> #[trigger] square[y]@.len() == dim,
            forall|y: int, k: int| 0 <= y < x && 0 <= k < dim ==> #[trigger] cell(square@, y, k) == cell(reduced@, y, k) - col_min[k],
        decreases dim - x,
    {
        let mut row: Vec<i64> = Vec::new();
        let mut k: usize = 0;
        while k < dim
            invariant
                k <= dim,
                x < dim,
                reduced.len() == dim,
                forall|y: int| 0 <= y < dim ==> #[trigger] reduced[y]@.len() == dim,
                forall|y: int, l: int| 0 <= y < dim && 0 <= l < dim ==> 0 <= #[trigger] cell(reduced@, y, l) <= BOUND,
                col_min.len() == dim,
                forall|l: int| 0 <= l < dim ==> 0 <= #[trigger] col_min[l] <= BOUND,
                row.len() == k,
                forall|l: int| 0 <= l < k ==> #[trigger] row[l] == cell(reduced@, x as int, l) - col_min[l],
            decreases dim - k,
        {
            assert(0 <= cell(reduced@, x as int, k as int) <= BOUND);
            row.push(reduced[x][k] - col_min[k]);
            k = k + 1;
        }
        let ghost prev = square@;
        square.push(row);
        assert forall|y: int, k: int| 0 <= y <= x && 0 <= k < dim implies #[trigger] cell(square@, y, k) == cell(
            reduced@,
            y,
            k,
        ) - col_min[k] by {
            if y < x {
                assert(square@[y] == prev[y]);
                assert(cell(prev, y, k) == cell(reduced@, y, k) - col_min[k]);
            } else {
                assert(square@[y] == row);
            }
        }
        x = x + 1;
    }
    assert(square_bounded(square@, dim as int));
    let mj = solve_square(&square, dim);
    proof {
        let rm = row_min;
        let cmn = col_min@;
        lemma_optimal_shifted(pm, cells(square@), |w: int| rm[w], |j: int| cmn[j] as int, as_ints(mj@), dim as int);
    }
    // Keep the real workers; padding jobs become -1.
    let mut result: Vec<i32> = Vec::new();
    let mut w: usize = 0;
    while w < rows
        invariant
            w <= rows,
            rows <= dim,
            cols <= dim,
            dim <= i32::MAX,
            mj.len() == dim,
            is_permutation(as_ints(mj@), dim as int),
            result.len() == w,
            forall|x: int| 0 <= x < w ==> #[trigger] result[x] as int == restrict(as_ints(mj@), rows as int, cols as int)[x],
        decreases rows - w,
    {
        assert(0 <= as_ints(mj@)[w as int] < dim);
        if mj[w] >= cols as i32 {
            result.push(-1);
        } else {
            result.push(mj[w]);
        }
        w = w + 1;
    }
    assert(as_ints(result@) =~= restrict(as_ints(mj@), rows as int, cols as int));
    result
}

/// Every row has as many entries as the first.
pub open spec fn rectangular(cm: Seq<Vec<i64>>) -> bool {
    forall|w: int| 0 <= w < cm.len() ==> #[trigger] cm[w].len() == n_cols(cm)
}

/// `a` gives each of `rows` workers a job of `0..cols`, or none (`-1`), and no job twice.
pub open spec fn partial_assignment(a: Seq<int>, rows: int, cols: int) -> bool {
    &&& a.len() == rows
    &&& forall|w: int| 0 <= w < rows ==> #[trigger] a[w] == -1 || 0 <= a[w] < cols
    &&& forall|w: int, x: int| 0 <= w < rows && 0 <= x < rows && w != x && a[w] >= 0 ==> #[trigger] a[w] != #[trigger] a[x]
}

/// The workers that `a` gives a job.
pub open spec fn assigned(a: Seq<int>) -> Set<int> {
    Set::new(|w: int| 0 <= w < a.len() && a[w] >= 0)
}

/// The cost of the jobs that `a` gives the first `k` workers.
pub open spec fn assignment_cost(cm: Seq<Vec<i64>>, a: Seq<int>, k: int) -> int
    decreases k,
{
    if k <= 0 {
        0
    } else {
        assignment_cost(cm, a, k - 1) + if a[k - 1] >= 0 { padded(cm)(k - 1, a[k - 1]) } else { 0 }
    }
}

pub open spec fn min_int(a: int, b: int) -> int {
    if a < b { a } else { b }
}

/// A permutation of `0..n` reaches every value of `0..n`.
proof fn lemma_permutation_onto(p: Seq<int>, n: int, j: int) -> (w: int)
    requires
        is_permutation(p, n),
        0 <= j < n,
    ensures
        0 <= w < n,
        p[w] == j,
{
    let dom = vstd::set_lib::set_int_range(0, n);
    let f = |i: int| p[i];
    let img = dom.map(f);
    vstd::set_lib::lemma_int_range(0, n);
    assert(vstd::relations::injective_on(f, dom));
    vstd::set_lib::lemma_map_size(dom, img, f);
    assert(img.subset_of(dom));
    vstd::set_lib::lemma_subset_equality(img, dom);
    assert(img.contains(j));
    choose|w: int| dom.contains(w) && f(w) == j
}

/// Distinct non-negative values and holes (`-1`) in `0..n` fill to a permutation of `0..n`:
/// the values stay, and a hole gets no value that `t` already holds.
proof fn lemma_fill(t: Seq<int>, orig: Seq<int>, n: int, i: int) -> (q: Seq<int>)
    requires
        t.len() == n,
        orig.len() == n,
        0 <= i <= n,
        forall|w: int| 0 <= w < n ==> #[trigger] t[w] == -1 || 0 <= t[w] < n,
        forall|w: int, x: int| 0 <= w < n && 0 <= x < n && w != x && t[w] >= 0 ==> #[trigger] t[w] != #[trigger] t[x],
        forall|w: int| 0 <= w < i ==> #[trigger] t[w] >= 0,
        forall|w: int| 0 <= w < n && orig[w] >= 0 ==> #[trigger] t[w] == orig[w],
        forall|w: int, x: int| 0 <= w < n && 0 <= x < n && orig[w] < 0 && t[w] >= 0 && orig[x] >= 0 ==> #[trigger] t[w]
            != #[trigger] orig[x],
    ensures
        is_permutation(q, n),
        forall|w: int| 0 <= w < n && orig[w] >= 0 ==> #[trigger] q[w] == orig[w],
        forall|w: int, x: int| 0 <= w < n && 0 <= x < n && orig[w] < 0 && orig[x] >= 0 ==> #[trigger] q[w]
            != #[trigger] orig[x],
    decreases n - i,
{
    if i == n {
        t
    } else if t[i] >= 0 {
        lemma_fill(t, orig, n, i + 1)
    } else {
        // The values held elsewhere are fewer than `n`: one value of `0..n` is free.
        let dom = vstd::set_lib::set_int_range(0, n).remove(i).filter(|w: int| t[w] >= 0);
        let f = |w: int| t[w];
        let used = dom.map(f);
        vstd::set_lib::lemma_int_range(0, n);
        let full = vstd::set_lib::set_int_range(0, n);
        assert(dom.subset_of(full.remove(i)));
        vstd::set_lib::lemma_len_subset(dom, full.remove(i));
        vstd::set_lib::lemma_map_size_bound(dom, used, f);
        assert(used.subset_of(full));
        if full.subset_of(used) {
            vstd::set_lib::lemma_len_subset(full, used);
            assert(false);
        }
        let v = choose|v: int| full.contains(v) && !used.contains(v);
        let t2 = t.update(i, v);
        assert forall|w: int| 0 <= w < n && w != i && t[w] >= 0 implies #[trigger] t[w] != v by {
            assert(dom.contains(w));
            assert(used.contains(f(w)));
        }
        assert forall|w: int, x: int| 0 <= w < n && 0 <= x < n && w != x && t2[w] >= 0 implies #[trigger] t2[w]
            != #[trigger] t2[x] by {
            if w != i && x != i {
                assert(t2[w] == t[w] && t2[x] == t[x]);
            }
        }
        assert forall|w: int, x: int| 0 <= w < n && 0 <= x < n && orig[w] < 0 && t2[w] >= 0 && orig[x] >= 0 implies #[trigger] t2[w]
            != #[trigger] orig[x] by {
            if w == i {
                assert(t[x] == orig[x]);
                if x == i {
                    assert(t[i] == orig[i]);
                }
            }
        }
        lemma_fill(t2, orig, n, i + 1)
    }
}

/// Over the first `k` workers, `p` costs what `a` does when each worker's job under `p`
/// costs what its job under `a` does (nothing without one).
proof fn lemma_cost_agrees(cm: Seq<Vec<i64>>, p: Seq<int>, a: Seq<int>, k: int)
    requires
        0 <= k,
        forall|w: int| 0 <= w < k ==> #[trigger] padded(cm)(w, p[w]) == (if a[w] >= 0 { padded(cm)(w, a[w]) } else { 0 }),
    ensures
        total_cost(padded(cm), p, k) == assignment_cost(cm, a, k),
    decreases k,
{
    if k > 0 {
        lemma_cost_agrees(cm, p, a, k - 1);
    }
}

/// Workers past the matrix's rows cost nothing.
proof fn lemma_cost_padding(cm: Seq<Vec<i64>>, p: Seq<int>, k: int)
    requires
        cm.len() <= k,
    ensures
        total_cost(padded(cm), p, k) == total_cost(padded(cm), p, cm.len() as int),
    decreases k,
{
    if k > cm.len() {
        lemma_cost_padding(cm, p, k - 1);
    }
}

/// What `hungarian` returns, read on the rectangular matrix: each worker gets a job or none,
/// no job twice, as many workers get a job as there are workers or jobs (whichever is fewer),
/// and no such assignment costs less.
pub proof fn lemma_hungarian_cheapest(cm: Seq<Vec<i64>>, sigma: Seq<int>)
    requires
        valid_costs(cm),
        rectangular(cm),
        n_rows(cm) > 0,
        n_cols(cm) > 0,
        is_optimal(padded(cm), sigma, side(cm)),
    ensures
        ({
            let rows = n_rows(cm);
            let cols = n_cols(cm);
            let r = restrict(sigma, rows, cols);
            &&& partial_assignment(r, rows, cols)
            &&& assigned(r).finite()
            &&& assigned(r).len() == min_int(rows, cols)
            &&& forall|a: Seq<int>|
                partial_assignment(a, rows, cols) && assigned(a).finite() && assigned(a).len() == min_int(rows, cols)
                    ==> assignment_cost(cm, r, rows) <= #[trigger] assignment_cost(cm, a, rows)
        }),
{
    let rows = n_rows(cm);
    let cols = n_cols(cm);
    let n = side(cm);
    let pm = padded(cm);
    let r = restrict(sigma, rows, cols);
    // The returned assignment.
    assert forall|w: int, x: int| 0 <= w < rows && 0 <= x < rows && w != x && r[w] >= 0 implies #[trigger] r[w]
        != #[trigger] r[x] by {
        assert(sigma[w] != sigma[x]);
    }
    let rr = vstd::set_lib::set_int_range(0, rows);
    vstd::set_lib::lemma_int_range(0, rows);
    assert(assigned(r).subset_of(rr));
    vstd::set_lib::lemma_len_subset(assigned(r), rr);
    if rows <= cols {
        assert(assigned(r) =~= rr);
    } else {
        let f = |w: int| sigma[w];
        let cr = vstd::set_lib::set_int_range(0, cols);
        vstd::set_lib::lemma_int_range(0, cols);
        assert forall|j: int| cr.contains(j) implies #[trigger] assigned(r).map(f).contains(j) by {
            let w = lemma_permutation_onto(sigma, n, j);
            assert(assigned(r).contains(w));
        }
        assert(assigned(r).map(f) =~= cr);
        assert(vstd::relations::injective_on(f, assigned(r)));
        vstd::set_lib::lemma_map_size(assigned(r), cr, f);
    }
    // Its cost is that of `sigma`.
    assert forall|w: int| 0 <= w < rows implies #[trigger] pm(w, sigma[w]) == (if r[w] >= 0 { pm(w, r[w]) } else { 0 }) by {
        assert(cm[w].len() == cols);
    }
    lemma_cost_agrees(cm, sigma, r, rows);
    lemma_cost_padding(cm, sigma, n);
    // Any other such assignment extends to a permutation that costs what it does.
    assert forall|a: Seq<int>|
        partial_assignment(a, rows, cols) && assigned(a).finite() && assigned(a).len() == min_int(rows, cols)
            implies assignment_cost(cm, r, rows) <= #[trigger] assignment_cost(cm, a, rows) by {
        let t = Seq::new(n as nat, |w: int| if w < rows { a[w] } else { -1 });
        assert forall|w: int, x: int| 0 <= w < n && 0 <= x < n && w != x && t[w] >= 0 implies #[trigger] t[w]
            != #[trigger] t[x] by {
            if x < rows {
                assert(a[w] != a[x]);
            }
        }
        let q = lemma_fill(t, t, n, 0);
        // A worker without a job under `a` gets a padding job.
        assert forall|w: int| 0 <= w < rows && a[w] < 0 implies #[trigger] q[w] >= cols by {
            assert(assigned(a).subset_of(rr));
            if rows <= cols {
                vstd::set_lib::lemma_subset_equality(assigned(a), rr);
                assert(rr.contains(w));
                assert(false);
            } else {
                let g = |x: int| a[x];
                let cr = vstd::set_lib::set_int_range(0, cols);
                vstd::set_lib::lemma_int_range(0, cols);
                assert(vstd::relations::injective_on(g, assigned(a)));
                vstd::set_lib::lemma_map_size(assigned(a), assigned(a).map(g), g);
                assert(assigned(a).map(g).subset_of(cr));
                vstd::set_lib::lemma_subset_equality(assigned(a).map(g), cr);
                if q[w] < cols {
                    assert(cr.contains(q[w]));
                    assert(assigned(a).map(g).contains(q[w]));
                    let x = choose|x: int| assigned(a).contains(x) && g(x) == q[w];
                    assert(t[x] == a[x]);
                    assert(t[w] < 0);
                    assert(q[w] != t[x]);
                }
            }
        }
        assert forall|w: int| 0 <= w < rows implies #[trigger] pm(w, q[w]) == (if a[w] >= 0 { pm(w, a[w]) } else { 0 }) by {
            assert(cm[w].len() == cols);
            if a[w] >= 0 {
                assert(t[w] == a[w]);
            }
        }
        lemma_cost_agrees(cm, q, a, rows);
        lemma_cost_padding(cm, q, n);
        assert(total_cost(pm, sigma, n) <= total_cost(pm, q, n));
    }
}

} // verus!
